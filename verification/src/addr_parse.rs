//! Reading addresses from their text.
use crate::addr;
use crate::addr::IpAddr;
use crate::text;
use vstd::prelude::*;
use vstd::string::*;

verus! {

/// The number of an octet: up to three decimal digits, no zero before another digit, up to 255.
pub open spec fn octet_of(s: Seq<char>) -> Option<nat> {
    if s.len() == 0 || s.len() > 3 || !text::is_digit(s[0]) || (s[0] == '0' && s.len() > 1) {
        None
    } else {
        match text::number(s, 255) {
            Ok(n) => Some(n),
            Err(_) => None,
        }
    }
}

/// The address of version 4 that four octets with dots between stand for.
pub open spec fn v4_of(s: Seq<char>) -> Option<u32> {
    let p = text::pieces(s, '.');
    if p.len() == 4 && octet_of(p[0]) is Some && octet_of(p[1]) is Some && octet_of(p[2]) is Some
        && octet_of(p[3]) is Some {
        Some(
            (octet_of(p[0])->0 * 0x100_0000 + octet_of(p[1])->0 * 0x1_0000 + octet_of(p[2])->0
                * 0x100 + octet_of(p[3])->0) as u32,
        )
    } else {
        None
    }
}

/// The value of a hexadecimal digit.
pub open spec fn hex_value(c: char) -> Option<nat> {
    if '0' <= c <= '9' {
        Some((c as u32 - '0' as u32) as nat)
    } else if 'a' <= c <= 'f' {
        Some((c as u32 - 'a' as u32 + 10) as nat)
    } else if 'A' <= c <= 'F' {
        Some((c as u32 - 'A' as u32 + 10) as nat)
    } else {
        None
    }
}

/// The number that the first `n` characters of a text stand for in hexadecimal.
pub open spec fn hex_upto(s: Seq<char>, n: nat) -> Option<nat>
    decreases n,
{
    if n == 0 {
        Some(0)
    } else {
        match (hex_upto(s, (n - 1) as nat), hex_value(s[n - 1])) {
            (Some(v), Some(d)) => Some(v * 16 + d),
            _ => None,
        }
    }
}

/// The number of a group: one to four hexadecimal digits.
pub open spec fn group_of(s: Seq<char>) -> Option<nat> {
    if s.len() == 0 || s.len() > 4 {
        None
    } else {
        hex_upto(s, s.len())
    }
}

/// The groups that the first `n` pieces stand for.
pub open spec fn groups_upto(p: Seq<Seq<char>>, n: nat) -> Option<Seq<u16>>
    decreases n,
{
    if n == 0 {
        Some(Seq::empty())
    } else {
        match (groups_upto(p, (n - 1) as nat), group_of(p[n - 1])) {
            (Some(g), Some(v)) => Some(g.push(v as u16)),
            _ => None,
        }
    }
}

/// The groups with colons between that a text stands for, none for an empty one. At its end an
/// address of version 4 may stand for two groups, where that is allowed.
pub open spec fn part_of(s: Seq<char>, dotted: bool) -> Option<Seq<u16>> {
    let p = text::pieces(s, ':');
    if s.len() == 0 {
        Some(Seq::empty())
    } else if dotted && v4_of(p.last()) is Some {
        let a = v4_of(p.last())->0;
        match groups_upto(p, (p.len() - 1) as nat) {
            Some(g) => Some(g + seq![(a / 0x1_0000) as u16, (a % 0x1_0000) as u16]),
            None => None,
        }
    } else {
        groups_upto(p, p.len())
    }
}

/// Where the first two colons in a row are, from position `i` on; the length where there are none.
pub open spec fn colons_from(s: Seq<char>, i: int) -> int
    decreases s.len() - i,
{
    if i < 0 || i + 1 >= s.len() {
        s.len() as int
    } else if s[i] == ':' && s[i + 1] == ':' {
        i
    } else {
        colons_from(s, i + 1)
    }
}

/// The address that eight groups make.
pub open spec fn joined(g: Seq<u16>) -> u128 {
    (g[0] * 0x1_0000_0000_0000_0000_0000_0000_0000 + g[1] * 0x1_0000_0000_0000_0000_0000_0000 + g[2]
        * 0x1_0000_0000_0000_0000_0000 + g[3] * 0x1_0000_0000_0000_0000 + g[4] * 0x1_0000_0000_0000
        + g[5] * 0x1_0000_0000 + g[6] * 0x1_0000 + g[7]) as u128
}

/// Some groups with as many noughts between as it takes to make eight.
pub open spec fn filled(head: Seq<u16>, tail: Seq<u16>) -> Seq<u16> {
    head + Seq::new((8 - head.len() - tail.len()) as nat, |i: int| 0u16) + tail
}

/// The address of version 6 that a text stands for: eight groups, or fewer with two colons in the
/// place of one or more that are nought.
pub open spec fn v6_of(s: Seq<char>) -> Option<u128> {
    let k = colons_from(s, 0);
    if k >= s.len() {
        match part_of(s, true) {
            Some(g) => if g.len() == 8 {
                Some(joined(g))
            } else {
                None
            },
            None => None,
        }
    } else {
        match (part_of(s.take(k), false), part_of(s.skip(k + 2), true)) {
            (Some(h), Some(t)) => if h.len() + t.len() <= 7 {
                Some(joined(filled(h, t)))
            } else {
                None
            },
            _ => None,
        }
    }
}

/// The address that a text stands for. Only one of version 6 holds a colon.
pub open spec fn ip_of(s: Seq<char>) -> Option<IpAddr> {
    if s.contains(':') {
        match v6_of(s) {
            Some(a) => Some(IpAddr::V6(a)),
            None => None,
        }
    } else {
        match v4_of(s) {
            Some(a) => Some(IpAddr::V4(a)),
            None => None,
        }
    }
}

fn read_octet(s: &str) -> (out: Option<u32>)
    ensures
        match out {
            Some(n) => octet_of(s@) == Some(n as nat) && n <= 255,
            None => octet_of(s@) is None,
        },
{
    let cs = text::chars_of(s);
    if cs.len() == 0 || cs.len() > 3 || cs[0] < '0' || cs[0] > '9' || (cs[0] == '0' && cs.len()
        > 1) {
        return None;
    }
    match text::parse_number(&cs, 255) {
        Ok(n) => Some(n as u32),
        Err(_) => None,
    }
}

fn read_v4(s: &str) -> (out: Option<u32>)
    ensures
        out == v4_of(s@),
{
    let cs = text::chars_of(s);
    let p = text::split_on(&cs, '.');
    assert(text::texts(p@).len() == p@.len());
    if p.len() != 4 {
        return None;
    }
    assert(text::texts(p@)[0] == p@[0]@);
    assert(text::texts(p@)[1] == p@[1]@);
    assert(text::texts(p@)[2] == p@[2]@);
    assert(text::texts(p@)[3] == p@[3]@);
    match (
        read_octet(p[0].as_str()),
        read_octet(p[1].as_str()),
        read_octet(p[2].as_str()),
        read_octet(p[3].as_str()),
    ) {
        (Some(a), Some(b), Some(c), Some(d)) => Some(
            a * 0x100_0000 + b * 0x1_0000 + c * 0x100 + d,
        ),
        _ => None,
    }
}

fn read_hex_digit(c: char) -> (out: Option<u32>)
    ensures
        match out {
            Some(n) => hex_value(c) == Some(n as nat) && n < 16,
            None => hex_value(c) is None,
        },
{
    if '0' <= c && c <= '9' {
        Some(c as u32 - '0' as u32)
    } else if 'a' <= c && c <= 'f' {
        Some(c as u32 - 'a' as u32 + 10)
    } else if 'A' <= c && c <= 'F' {
        Some(c as u32 - 'A' as u32 + 10)
    } else {
        None
    }
}

proof fn lemma_hex_upto_none(s: Seq<char>, n: nat, m: nat)
    requires
        n <= m,
        hex_upto(s, n) is None,
    ensures
        hex_upto(s, m) is None,
    decreases m,
{
    if n < m {
        lemma_hex_upto_none(s, n, (m - 1) as nat);
    }
}

fn read_group(s: &str) -> (out: Option<u16>)
    ensures
        match out {
            Some(n) => group_of(s@) == Some(n as nat),
            None => group_of(s@) is None,
        },
{
    let cs = text::chars_of(s);
    if cs.len() == 0 || cs.len() > 4 {
        return None;
    }
    let mut v: u32 = 0;
    let mut bound: u32 = 1;
    let mut i: usize = 0;
    while i < cs.len()
        invariant
            cs@ == s@,
            i <= cs@.len() <= 4,
            hex_upto(s@, i as nat) == Some(v as nat),
            v < bound,
            i == 0 ==> bound == 1,
            i == 1 ==> bound == 16,
            i == 2 ==> bound == 256,
            i == 3 ==> bound == 4096,
            i == 4 ==> bound == 65536,
        decreases cs@.len() - i,
    {
        match read_hex_digit(cs[i]) {
            Some(d) => {
                v = v * 16 + d;
                bound = bound * 16;
            },
            None => {
                proof {
                    lemma_hex_upto_none(s@, (i + 1) as nat, s@.len());
                }
                return None;
            },
        }
        i += 1;
    }
    Some(v as u16)
}

proof fn lemma_groups_upto_none(p: Seq<Seq<char>>, n: nat, m: nat)
    requires
        n <= m,
        groups_upto(p, n) is None,
    ensures
        groups_upto(p, m) is None,
    decreases m,
{
    if n < m {
        lemma_groups_upto_none(p, n, (m - 1) as nat);
    }
}

fn read_groups(p: &Vec<String>, n: usize) -> (out: Option<Vec<u16>>)
    requires
        n <= p@.len(),
    ensures
        match out {
            Some(g) => groups_upto(text::texts(p@), n as nat) == Some(g@),
            None => groups_upto(text::texts(p@), n as nat) is None,
        },
{
    let mut g: Vec<u16> = Vec::new();
    let mut i: usize = 0;
    assert(g@ =~= Seq::empty());
    while i < n
        invariant
            i <= n <= p@.len(),
            groups_upto(text::texts(p@), i as nat) == Some(g@),
        decreases n - i,
    {
        assert(text::texts(p@)[i as int] == p@[i as int]@);
        match read_group(p[i].as_str()) {
            Some(v) => {
                g.push(v);
            },
            None => {
                proof {
                    lemma_groups_upto_none(text::texts(p@), (i + 1) as nat, n as nat);
                }
                return None;
            },
        }
        i += 1;
    }
    Some(g)
}

proof fn lemma_pieces_some(s: Seq<char>, c: char)
    ensures
        text::pieces(s, c).len() > 0,
{
}

fn read_part(s: &str, dotted: bool) -> (out: Option<Vec<u16>>)
    ensures
        match out {
            Some(g) => part_of(s@, dotted) == Some(g@),
            None => part_of(s@, dotted) is None,
        },
{
    let cs = text::chars_of(s);
    if cs.len() == 0 {
        let none: Vec<u16> = Vec::new();
        assert(none@ =~= Seq::empty());
        return Some(none);
    }
    let p = text::split_on(&cs, ':');
    proof {
        lemma_pieces_some(s@, ':');
        assert(text::texts(p@).len() == p@.len());
        assert(text::texts(p@).last() == p@.last()@);
    }
    let n: usize = p.len();
    if dotted {
        if let Some(a) = read_v4(p[n - 1].as_str()) {
            return match read_groups(&p, n - 1) {
                Some(g) => {
                    let mut g = g;
                    let ghost first = g@;
                    g.push((a / 0x1_0000) as u16);
                    g.push((a % 0x1_0000) as u16);
                    assert(g@ =~= first + seq![(a / 0x1_0000) as u16, (a % 0x1_0000) as u16]);
                    Some(g)
                },
                None => None,
            };
        }
    }
    read_groups(&p, n)
}

fn find_colons(s: &Vec<char>) -> (at: usize)
    ensures
        at == colons_from(s@, 0),
        at <= s@.len(),
        at < s@.len() ==> at + 2 <= s@.len(),
{
    let mut i: usize = 0;
    while i < s.len()
        invariant
            i <= s@.len(),
            colons_from(s@, 0) == colons_from(s@, i as int),
        decreases s@.len() - i,
    {
        if i + 1 >= s.len() {
            return s.len();
        }
        if s[i] == ':' && s[i + 1] == ':' {
            return i;
        }
        i += 1;
    }
    s.len()
}

fn join(g: &Vec<u16>) -> (a: u128)
    requires
        g@.len() == 8,
    ensures
        a == joined(g@),
{
    let a: u128 = g[0] as u128 * 0x1_0000_0000_0000_0000_0000_0000_0000 + g[1] as u128
        * 0x1_0000_0000_0000_0000_0000_0000 + g[2] as u128 * 0x1_0000_0000_0000_0000_0000
        + g[3] as u128 * 0x1_0000_0000_0000_0000 + g[4] as u128 * 0x1_0000_0000_0000 + g[5] as u128
        * 0x1_0000_0000 + g[6] as u128 * 0x1_0000 + g[7] as u128;
    a
}

fn fill(head: Vec<u16>, tail: Vec<u16>) -> (out: Vec<u16>)
    requires
        head@.len() + tail@.len() <= 8,
    ensures
        out@ == filled(head@, tail@),
        out@.len() == 8,
{
    let mut out = head;
    let mut tail = tail;
    let ghost h = head@;
    let ghost t = tail@;
    let n: usize = 8 - tail.len();
    while out.len() < n
        invariant
            n == 8 - t.len(),
            h.len() <= out@.len() <= n,
            out@ == h + Seq::new((out@.len() - h.len()) as nat, |i: int| 0u16),
        decreases n - out@.len(),
    {
        out.push(0);
        assert(out@ =~= h + Seq::new((out@.len() - h.len()) as nat, |i: int| 0u16));
    }
    out.append(&mut tail);
    assert(out@ =~= filled(h, t));
    out
}

fn read_v6(cs: &Vec<char>) -> (out: Option<u128>)
    ensures
        out == v6_of(cs@),
{
    let k: usize = find_colons(cs);
    let n: usize = cs.len();
    if k >= n {
        let all = text::string_of(cs, 0, n);
        assert(all@ =~= cs@);
        match read_part(all.as_str(), true) {
            Some(g) => {
                if g.len() == 8 {
                    Some(join(&g))
                } else {
                    None
                }
            },
            None => None,
        }
    } else {
        let head = text::string_of(cs, 0, k);
        let tail = text::string_of(cs, k + 2, n);
        assert(head@ =~= cs@.take(k as int));
        assert(tail@ =~= cs@.skip(k + 2));
        match (read_part(head.as_str(), false), read_part(tail.as_str(), true)) {
            (Some(h), Some(t)) => {
                if h.len() <= 7 && t.len() <= 7 - h.len() {
                    Some(join(&fill(h, t)))
                } else {
                    None
                }
            },
            _ => None,
        }
    }
}

/// The address that a text stands for.
pub fn parse_ip(s: &str) -> (out: Option<IpAddr>)
    ensures
        out == ip_of(s@),
{
    let cs = text::chars_of(s);
    let at: usize = text::find_char(&cs, ':', 0);
    proof {
        text::lemma_find_from(s@, ':', 0);
    }
    if at < cs.len() {
        assert(s@.contains(':')) by {
            assert(s@[at as int] == ':');
        }
        match read_v6(&cs) {
            Some(a) => Some(IpAddr::V6(a)),
            None => None,
        }
    } else {
        match read_v4(s) {
            Some(a) => Some(IpAddr::V4(a)),
            None => None,
        }
    }
}

// ----- what was written is read back

/// The octets of an address are bytes, and make the address.
pub proof fn lemma_octets_join(a: u32)
    ensures
        addr::octets(a)[0] <= 255,
        addr::octets(a)[1] <= 255,
        addr::octets(a)[2] <= 255,
        addr::octets(a)[3] <= 255,
        a == addr::octets(a)[0] * 0x100_0000 + addr::octets(a)[1] * 0x1_0000 + addr::octets(a)[2]
            * 0x100 + addr::octets(a)[3],
{
}

proof fn lemma_decimal_without(n: nat, c: char)
    requires
        !text::is_digit(c),
    ensures
        !text::decimal(n).contains(c),
{
    text::lemma_decimal_digits(n);
}

/// The pieces of a version 4 address in text are its octets in decimal.
pub proof fn lemma_v4_pieces(a: u32)
    ensures
        text::pieces(addr::v4_text(a), '.') == seq![
            text::decimal(addr::octets(a)[0]),
            text::decimal(addr::octets(a)[1]),
            text::decimal(addr::octets(a)[2]),
            text::decimal(addr::octets(a)[3]),
        ],
{
    let o = addr::octets(a);
    let (d0, d1, d2, d3) = (
        text::decimal(o[0]),
        text::decimal(o[1]),
        text::decimal(o[2]),
        text::decimal(o[3]),
    );
    let dot = seq!['.'];
    let t2 = d2 + (dot + d3);
    let t1 = d1 + (dot + t2);
    lemma_decimal_without(o[0], '.');
    lemma_decimal_without(o[1], '.');
    lemma_decimal_without(o[2], '.');
    lemma_decimal_without(o[3], '.');
    text::lemma_pieces_cons(d3, d3, '.');
    text::lemma_pieces_cons(d2, d3, '.');
    text::lemma_pieces_cons(d1, t2, '.');
    text::lemma_pieces_cons(d0, t1, '.');
    assert(addr::v4_text(a) =~= d0 + (dot + t1));
    assert(text::pieces(d0 + (dot + t1), '.') =~= seq![d0, d1, d2, d3]);
}

proof fn lemma_octet_read(n: nat)
    requires
        n <= 255,
    ensures
        octet_of(text::decimal(n)) == Some(n),
{
    text::law_number_of_decimal(n, 255);
    text::lemma_decimal_digits(n);
    reveal_with_fuel(text::decimal, 4);
}

proof fn lemma_v4_read(a: u32)
    ensures
        v4_of(addr::v4_text(a)) == Some(a),
{
    let o = addr::octets(a);
    lemma_octets_join(a);
    lemma_v4_pieces(a);
    lemma_octet_read(o[0]);
    lemma_octet_read(o[1]);
    lemma_octet_read(o[2]);
    lemma_octet_read(o[3]);
}

/// A number in hexadecimal is not empty and holds neither colons nor dots.
proof fn lemma_hex_chars(n: nat)
    ensures
        addr::hex(n).len() > 0,
        forall|k: int|
            0 <= k < addr::hex(n).len() ==> #[trigger] addr::hex(n)[k] != ':' && addr::hex(n)[k]
                != '.',
    decreases n,
{
    if n >= 16 {
        lemma_hex_chars(n / 16);
        assert forall|k: int| 0 <= k < addr::hex(n).len() implies #[trigger] addr::hex(n)[k] != ':'
            && addr::hex(n)[k] != '.' by {
            if k < addr::hex(n / 16).len() {
                assert(addr::hex(n)[k] == addr::hex(n / 16)[k]);
            }
        }
    }
}

proof fn lemma_hex_prefix(s: Seq<char>, c: char, n: nat)
    requires
        n <= s.len(),
    ensures
        hex_upto(s.push(c), n) == hex_upto(s, n),
    decreases n,
{
    if n > 0 {
        lemma_hex_prefix(s, c, (n - 1) as nat);
        assert(s.push(c)[n - 1] == s[n - 1]);
    }
}

proof fn lemma_hex_read(n: nat)
    ensures
        hex_upto(addr::hex(n), addr::hex(n).len()) == Some(n),
    decreases n,
{
    let s = addr::hex(n);
    if n < 16 {
        assert(hex_upto(s, 0) == Some(0nat));
        assert(hex_value(s[0]) == Some(n));
    } else {
        let before = addr::hex(n / 16);
        lemma_hex_read(n / 16);
        lemma_hex_prefix(before, addr::hex_digit(n % 16), before.len());
        assert(hex_value(s[s.len() - 1]) == Some(n % 16));
    }
}

proof fn lemma_group_read(v: u16)
    ensures
        group_of(addr::hex(v as nat)) == Some(v as nat),
{
    lemma_hex_read(v as nat);
    lemma_hex_chars(v as nat);
    reveal_with_fuel(addr::hex, 5);
}

/// The groups in text, the first apart from the rest.
proof fn lemma_groups_cons(g: Seq<u16>, i: int, j: int)
    requires
        i + 1 < j,
    ensures
        addr::groups_text(g, i, j) == addr::hex(g[i] as nat) + (seq![':'] + addr::groups_text(
            g,
            i + 1,
            j,
        )),
    decreases j - i,
{
    let h = addr::hex(g[i] as nat);
    if i + 2 < j {
        lemma_groups_cons(g, i, j - 1);
        let last = addr::hex(g[j - 1] as nat);
        assert(addr::groups_text(g, i, j) =~= h + (seq![':'] + (addr::groups_text(g, i + 1, j - 1)
            + seq![':'] + last)));
    } else {
        reveal_with_fuel(addr::groups_text, 2);
        assert(addr::groups_text(g, i, j) =~= h + (seq![':'] + addr::hex(g[i + 1] as nat)));
    }
}

proof fn lemma_groups_pieces(g: Seq<u16>, i: int, j: int)
    requires
        i < j,
    ensures
        text::pieces(addr::groups_text(g, i, j), ':') == Seq::new(
            (j - i) as nat,
            |k: int| addr::hex(g[i + k] as nat),
        ),
        addr::groups_text(g, i, j).len() > 0,
    decreases j - i,
{
    let h = addr::hex(g[i] as nat);
    lemma_hex_chars(g[i] as nat);
    assert(!h.contains(':'));
    let want = Seq::new((j - i) as nat, |k: int| addr::hex(g[i + k] as nat));
    if i + 1 == j {
        text::lemma_pieces_cons(h, h, ':');
        assert(seq![h] =~= want);
    } else {
        lemma_groups_cons(g, i, j);
        lemma_groups_pieces(g, i + 1, j);
        let rest = addr::groups_text(g, i + 1, j);
        text::lemma_pieces_cons(h, rest, ':');
        assert(seq![h] + text::pieces(rest, ':') =~= want);
    }
}

proof fn lemma_groups_upto_read(p: Seq<Seq<char>>, g: Seq<u16>, i: int, n: nat)
    requires
        0 <= i,
        i + n <= g.len(),
        n <= p.len(),
        forall|k: int| 0 <= k < n ==> #[trigger] p[k] == addr::hex(g[i + k] as nat),
    ensures
        groups_upto(p, n) == Some(g.subrange(i, i + n)),
    decreases n,
{
    if n == 0 {
        assert(g.subrange(i, i + n) =~= Seq::empty());
    } else {
        lemma_groups_upto_read(p, g, i, (n - 1) as nat);
        lemma_group_read(g[i + n - 1]);
        assert(p[n - 1] == addr::hex(g[i + (n - 1)] as nat));
        assert(g.subrange(i, i + n) =~= g.subrange(i, i + n - 1).push(g[i + n - 1]));
    }
}

proof fn lemma_no_v4(s: Seq<char>)
    requires
        !s.contains('.'),
    ensures
        v4_of(s) is None,
{
    text::lemma_pieces_cons(s, s, '.');
}

proof fn lemma_part_read(g: Seq<u16>, i: int, j: int, dotted: bool)
    requires
        0 <= i <= j <= g.len(),
    ensures
        part_of(addr::groups_text(g, i, j), dotted) == Some(g.subrange(i, j)),
{
    let s = addr::groups_text(g, i, j);
    if i == j {
        assert(g.subrange(i, j) =~= Seq::empty());
    } else {
        lemma_groups_pieces(g, i, j);
        let p = text::pieces(s, ':');
        let n = (j - i) as nat;
        assert(p.last() == addr::hex(g[i + (n - 1)] as nat));
        lemma_hex_chars(g[j - 1] as nat);
        lemma_no_v4(p.last());
        assert forall|k: int| 0 <= k < n implies #[trigger] p[k] == addr::hex(g[i + k] as nat) by {}
        lemma_groups_upto_read(p, g, i, n);
    }
}

/// Whether each colon of a text has another character behind it.
spec fn single_colons(s: Seq<char>) -> bool {
    forall|k: int|
        0 <= k < s.len() && #[trigger] s[k] == ':' ==> k + 1 < s.len() && s[k + 1] != ':'
}

proof fn lemma_groups_single_colons(g: Seq<u16>, i: int, j: int)
    ensures
        single_colons(addr::groups_text(g, i, j)),
    decreases j - i,
{
    if i + 1 == j {
        lemma_hex_chars(g[i] as nat);
    } else if i + 1 < j {
        lemma_groups_single_colons(g, i, j - 1);
        lemma_hex_chars(g[j - 1] as nat);
        let before = addr::groups_text(g, i, j - 1);
        let last = addr::hex(g[j - 1] as nat);
        let s = addr::groups_text(g, i, j);
        assert(s == before + seq![':'] + last);
        assert forall|k: int| 0 <= k < s.len() && #[trigger] s[k] == ':' implies k + 1 < s.len()
            && s[k + 1] != ':' by {
            if k < before.len() {
                assert(before[k] == ':');
                assert(s[k + 1] == before[k + 1]);
            } else if k == before.len() {
                assert(s[k + 1] == last[0]);
            } else {
                assert(s[k] == last[k - before.len() - 1]);
            }
        }
    }
}

proof fn lemma_no_colons(s: Seq<char>, i: int)
    requires
        single_colons(s),
        0 <= i <= s.len(),
    ensures
        colons_from(s, i) == s.len(),
    decreases s.len() - i,
{
    if i + 1 < s.len() {
        assert(!(s[i] == ':' && s[i + 1] == ':'));
        lemma_no_colons(s, i + 1);
    }
}

proof fn lemma_first_colons(h: Seq<char>, t: Seq<char>, i: int)
    requires
        single_colons(h),
        0 <= i <= h.len(),
    ensures
        colons_from(h + seq![':', ':'] + t, i) == h.len(),
    decreases h.len() - i,
{
    let s = h + seq![':', ':'] + t;
    if i < h.len() {
        assert(s[i] == h[i]);
        if h[i] == ':' {
            assert(s[i + 1] == h[i + 1]);
        }
        lemma_first_colons(h, t, i + 1);
    } else {
        assert(s[i] == ':' && s[i + 1] == ':');
    }
}

proof fn lemma_joined(a: u128)
    ensures
        joined(addr::groups(a)) == a,
{
    assert(a == (a / 0x1_0000_0000_0000_0000_0000_0000_0000 % 0x1_0000)
        * 0x1_0000_0000_0000_0000_0000_0000_0000 + (a / 0x1_0000_0000_0000_0000_0000_0000
        % 0x1_0000) * 0x1_0000_0000_0000_0000_0000_0000 + (a / 0x1_0000_0000_0000_0000_0000
        % 0x1_0000) * 0x1_0000_0000_0000_0000_0000 + (a / 0x1_0000_0000_0000_0000 % 0x1_0000)
        * 0x1_0000_0000_0000_0000 + (a / 0x1_0000_0000_0000 % 0x1_0000) * 0x1_0000_0000_0000 + (a
        / 0x1_0000_0000 % 0x1_0000) * 0x1_0000_0000 + (a / 0x1_0000 % 0x1_0000) * 0x1_0000 + (a
        % 0x1_0000)) by (bit_vector);
}

proof fn lemma_zero_run(g: Seq<u16>, i: int)
    requires
        0 <= i <= g.len(),
    ensures
        i + addr::zeros_at(g, i) <= g.len(),
        forall|k: int| i <= k < i + addr::zeros_at(g, i) ==> #[trigger] g[k] == 0,
    decreases g.len() - i,
{
    if i < g.len() && g[i] == 0 {
        lemma_zero_run(g, i + 1);
    }
}

proof fn lemma_mapped_read(a: u128)
    requires
        a / 0x1_0000_0000 == 0xffff,
    ensures
        v6_of("::ffff:"@ + addr::v4_text((a % 0x1_0000_0000) as u32)) == Some(a),
{
    let b = (a % 0x1_0000_0000) as u32;
    let d = addr::v4_text(b);
    let s = "::ffff:"@ + d;
    reveal_strlit("::ffff:");
    let mark = addr::hex(0xffff);
    assert(mark =~= seq!['f', 'f', 'f', 'f']) by {
        reveal_with_fuel(addr::hex, 4);
    }
    let tail = mark + (seq![':'] + d);
    assert(s =~= Seq::<char>::empty() + seq![':', ':'] + tail);
    lemma_first_colons(Seq::empty(), tail, 0);
    assert(s.take(0) =~= Seq::empty());
    assert(s.skip(2) =~= tail);
    lemma_hex_chars(0xffff);
    assert(!mark.contains(':'));
    lemma_v4_without_colon(b);
    text::lemma_pieces_cons(mark, d, ':');
    text::lemma_pieces_cons(d, d, ':');
    let p = text::pieces(tail, ':');
    assert(p =~= seq![mark, d]);
    lemma_v4_read(b);
    lemma_group_read(0xffff);
    assert(groups_upto(p, 0) == Some(Seq::<u16>::empty()));
    assert(groups_upto(p, 1) == Some(Seq::<u16>::empty().push(0xffff)));
    let (hi, lo) = ((b / 0x1_0000) as u16, (b % 0x1_0000) as u16);
    let t = Seq::<u16>::empty().push(0xffff) + seq![hi, lo];
    assert(part_of(tail, true) == Some(t));
    let g = filled(Seq::empty(), t);
    assert(g =~= seq![0u16, 0u16, 0u16, 0u16, 0u16, 0xffffu16, hi, lo]);
    assert(joined(g) == a);
}

pub proof fn lemma_v4_without_colon(a: u32)
    ensures
        !addr::v4_text(a).contains(':'),
{
    let o = addr::octets(a);
    lemma_decimal_without(o[0], ':');
    lemma_decimal_without(o[1], ':');
    lemma_decimal_without(o[2], ':');
    lemma_decimal_without(o[3], ':');
    let s = addr::v4_text(a);
    let (d0, d1, d2, d3) = (
        text::decimal(o[0]),
        text::decimal(o[1]),
        text::decimal(o[2]),
        text::decimal(o[3]),
    );
    assert forall|k: int| 0 <= k < s.len() implies #[trigger] s[k] != ':' by {
        if k < d0.len() {
            assert(d0.contains(s[k]));
        } else if d0.len() < k < d0.len() + 1 + d1.len() {
            assert(s[k] == d1[k - d0.len() - 1]);
        } else if d0.len() + 1 + d1.len() < k < d0.len() + 2 + d1.len() + d2.len() {
            assert(s[k] == d2[k - d0.len() - d1.len() - 2]);
        } else if d0.len() + 2 + d1.len() + d2.len() < k {
            assert(s[k] == d3[k - d0.len() - d1.len() - d2.len() - 3]);
        }
    }
}

proof fn lemma_grouped_read(a: u128)
    requires
        a / 0x1_0000_0000 != 0xffff,
    ensures
        v6_of(addr::v6_text(a)) == Some(a),
{
    let g = addr::groups(a);
    let i = addr::longest_zeros(g, 0);
    let n = addr::zeros_at(g, i);
    let s = addr::v6_text(a);
    addr::lemma_longest_zeros(g, 0);
    lemma_zero_run(g, i);
    lemma_joined(a);
    if n > 1 {
        let (h, t) = (addr::groups_text(g, 0, i), addr::groups_text(g, i + n, 8));
        reveal_strlit("::");
        assert(s =~= h + seq![':', ':'] + t);
        lemma_groups_single_colons(g, 0, i);
        lemma_first_colons(h, t, 0);
        assert(s.take(h.len() as int) =~= h);
        assert(s.skip(h.len() as int + 2) =~= t);
        lemma_part_read(g, 0, i, false);
        lemma_part_read(g, i + n, 8, true);
        assert(filled(g.subrange(0, i), g.subrange(i + n, 8)) =~= g);
    } else {
        lemma_groups_single_colons(g, 0, 8);
        lemma_no_colons(s, 0);
        lemma_part_read(g, 0, 8, true);
        assert(g.subrange(0, 8) =~= g);
    }
}

proof fn lemma_v6_has_colon(a: u128)
    ensures
        addr::v6_text(a).contains(':'),
{
    let g = addr::groups(a);
    let i = addr::longest_zeros(g, 0);
    let n = addr::zeros_at(g, i);
    let s = addr::v6_text(a);
    if a / 0x1_0000_0000 == 0xffff {
        reveal_strlit("::ffff:");
        assert(s[0] == ':');
    } else if n > 1 {
        reveal_strlit("::");
        assert(s[addr::groups_text(g, 0, i).len() as int] == ':');
    } else {
        assert(s[addr::groups_text(g, 0, 7).len() as int] == ':');
    }
}

/// An address that was written is read as the same address.
pub proof fn law_written_address_is_read_back(ip: IpAddr)
    ensures
        ip_of(ip.text()) == Some(ip),
{
    match ip {
        IpAddr::V4(a) => {
            lemma_v4_without_colon(a);
            lemma_v4_read(a);
        },
        IpAddr::V6(a) => {
            lemma_v6_has_colon(a);
            if a / 0x1_0000_0000 == 0xffff {
                lemma_mapped_read(a);
            } else {
                lemma_grouped_read(a);
            }
        },
    }
}

/// Four octets in decimal with dots between, none with a zero before another digit, are the address
/// of version 4 with the first on top; an octet above 255 or with a leading zero makes none.
pub proof fn law_strict_octets_are_an_address(s: Seq<char>, a: u8, b: u8, c: u8, d: u8)
    ensures
        ({
            let p = text::pieces(s, '.');
            &&& p == seq![
                text::decimal(a as nat),
                text::decimal(b as nat),
                text::decimal(c as nat),
                text::decimal(d as nat),
            ] && !s.contains(':') ==> ip_of(s) == Some(
                IpAddr::V4((a * 0x100_0000 + b * 0x1_0000 + c * 0x100 + d) as u32),
            )
            &&& !s.contains(':') && p.len() != 4 ==> ip_of(s) is None
            &&& (!s.contains(':') && exists|k: int|
                0 <= k < p.len() && ((#[trigger] p[k]).len() == 0 || p[k].len() > 3 || p[k].len() > 1
                    && p[k][0] == '0' || text::number(p[k], 255) is Err)) ==> ip_of(s) is None
        }),
{
    lemma_decimal_is_octet(a);
    lemma_decimal_is_octet(b);
    lemma_decimal_is_octet(c);
    lemma_decimal_is_octet(d);
}

proof fn lemma_decimal_is_octet(n: u8)
    ensures
        octet_of(text::decimal(n as nat)) == Some(n as nat),
{
    text::law_number_of_decimal(n as nat, 255);
    text::lemma_decimal_digits(n as nat);
    reveal_with_fuel(text::decimal, 4);
    let m = n as nat;
    if m >= 100 {
        assert(m / 100 >= 1 && m / 10 / 10 == m / 100);
    }
}

/// A text with a colon is never an address of version 4, and one without never of version 6.
pub proof fn law_colon_tells_the_version(s: Seq<char>)
    ensures
        ip_of(s) matches Some(ip) ==> (ip is V6 <==> s.contains(':')),
{
}

/// A group is one to four hexadecimal digits in either case, most significant first.
pub proof fn law_group_is_hexadecimal(s: Seq<char>, c: char)
    ensures
        '0' <= c <= '9' ==> hex_value(c) == Some((c as u32 - '0' as u32) as nat),
        'a' <= c <= 'f' ==> hex_value(c) == Some((c as u32 - 'a' as u32 + 10) as nat),
        'A' <= c <= 'F' ==> hex_value(c) == Some((c as u32 - 'A' as u32 + 10) as nat),
        !('0' <= c <= '9') && !('a' <= c <= 'f') && !('A' <= c <= 'F') ==> hex_value(c) is None,
        s.len() == 0 || s.len() > 4 ==> group_of(s) is None,
        0 < s.len() < 4 ==> (match (group_of(s), hex_value(c)) {
            (Some(v), Some(d)) => group_of(s.push(c)) == Some(v * 16 + d),
            _ => group_of(s.push(c)) is None,
        }),
        group_of(seq![c]) == hex_value(c),
{
    lemma_hex_prefix(s, c, s.len());
    reveal_with_fuel(hex_upto, 2);
}

/// The groups of an address of version 6 are its number in sixteen bits each, the first on top.
pub proof fn law_groups_make_the_address(a: u128)
    ensures
        ({
            let g = addr::groups(a);
            &&& g.len() == 8
            &&& (g[0] * 0x1_0000_0000_0000_0000_0000_0000_0000 + g[1]
                * 0x1_0000_0000_0000_0000_0000_0000 + g[2] * 0x1_0000_0000_0000_0000_0000 + g[3]
                * 0x1_0000_0000_0000_0000 + g[4] * 0x1_0000_0000_0000 + g[5] * 0x1_0000_0000 + g[6]
                * 0x1_0000 + g[7]) as u128 == a
        }),
{
    lemma_joined(a);
}

} // verus!

//! Network addresses and their text.
use crate::text;
use vstd::prelude::*;
use vstd::string::*;

verus! {

broadcast use vstd::seq_lib::group_seq_properties;

/// An internet address: the four octets of version 4, or the eight groups of version 6, as one
/// number with the first octet on top.
#[derive(Clone, Copy, Debug, PartialEq, Eq, PartialOrd, Ord, Hash, Structural)]
pub enum IpAddr {
    V4(u32),
    V6(u128),
}

/// The octets of a version 4 address, first to last.
pub open spec fn octets(a: u32) -> Seq<nat> {
    seq![
        (a / 0x100_0000) as nat,
        (a / 0x1_0000 % 0x100) as nat,
        (a / 0x100 % 0x100) as nat,
        (a % 0x100) as nat,
    ]
}

/// A version 4 address in text: its octets in decimal with dots between.
pub open spec fn v4_text(a: u32) -> Seq<char> {
    let o = octets(a);
    text::decimal(o[0]) + seq!['.'] + text::decimal(o[1]) + seq!['.'] + text::decimal(o[2]) + seq![
        '.',
    ] + text::decimal(o[3])
}

/// The eight groups of a version 6 address, first to last.
pub open spec fn groups(a: u128) -> Seq<u16> {
    seq![
        (a / 0x1_0000_0000_0000_0000_0000_0000_0000 % 0x1_0000) as u16,
        (a / 0x1_0000_0000_0000_0000_0000_0000 % 0x1_0000) as u16,
        (a / 0x1_0000_0000_0000_0000_0000 % 0x1_0000) as u16,
        (a / 0x1_0000_0000_0000_0000 % 0x1_0000) as u16,
        (a / 0x1_0000_0000_0000 % 0x1_0000) as u16,
        (a / 0x1_0000_0000 % 0x1_0000) as u16,
        (a / 0x1_0000 % 0x1_0000) as u16,
        (a % 0x1_0000) as u16,
    ]
}

/// How many groups from position `i` on are nought without a break.
pub open spec fn zeros_at(g: Seq<u16>, i: int) -> nat
    decreases g.len() - i,
{
    if i < 0 || i >= g.len() || g[i] != 0 {
        0
    } else {
        1 + zeros_at(g, i + 1)
    }
}

/// Where the longest run of noughts from position `i` on starts; the first such place where
/// several runs are as long.
pub open spec fn longest_zeros(g: Seq<u16>, i: int) -> int
    decreases g.len() - i,
{
    if i < 0 || i + 1 >= g.len() {
        i
    } else {
        let rest = longest_zeros(g, i + 1);
        if zeros_at(g, i) >= zeros_at(g, rest) {
            i
        } else {
            rest
        }
    }
}

/// The character of a hexadecimal digit.
pub open spec fn hex_digit(d: nat) -> char {
    if d < 10 {
        ('0' as u32 + d) as char
    } else {
        ('a' as u32 + d - 10) as char
    }
}

/// A number in hexadecimal, without leading zeros.
pub open spec fn hex(n: nat) -> Seq<char>
    decreases n,
{
    if n < 16 {
        seq![hex_digit(n)]
    } else {
        hex(n / 16).push(hex_digit(n % 16))
    }
}

/// The groups from `i` up to `j` in hexadecimal with colons between.
pub open spec fn groups_text(g: Seq<u16>, i: int, j: int) -> Seq<char>
    decreases j - i,
{
    if i >= j {
        Seq::empty()
    } else if i + 1 == j {
        hex(g[i] as nat)
    } else {
        groups_text(g, i, j - 1) + seq![':'] + hex(g[j - 1] as nat)
    }
}

/// A version 6 address in text. An address that holds one of version 4 shows it in dotted form;
/// in any other, two colons stand for the first of the longest runs of two or more noughts.
pub open spec fn v6_text(a: u128) -> Seq<char> {
    if a / 0x1_0000_0000 == 0xffff {
        "::ffff:"@ + v4_text((a % 0x1_0000_0000) as u32)
    } else {
        let g = groups(a);
        let i = longest_zeros(g, 0);
        let n = zeros_at(g, i);
        if n > 1 {
            groups_text(g, 0, i) + "::"@ + groups_text(g, i + n, 8)
        } else {
            groups_text(g, 0, 8)
        }
    }
}

impl IpAddr {
    /// The address in text.
    pub open spec fn text(self) -> Seq<char> {
        match self {
            IpAddr::V4(a) => v4_text(a),
            IpAddr::V6(a) => v6_text(a),
        }
    }

    /// Append the address in text.
    pub fn push_to(self, out: &mut String)
        ensures
            final(out)@ == old(out)@ + self.text(),
    {
        match self {
            IpAddr::V4(a) => push_v4(out, a),
            IpAddr::V6(a) => push_v6(out, a),
        }
    }

    /// The address in text.
    pub fn to_text(self) -> (out: String)
        ensures
            out@ == self.text(),
    {
        let mut out = String::new();
        self.push_to(&mut out);
        assert(out@ =~= self.text());
        out
    }
}

fn push_v4(out: &mut String, a: u32)
    ensures
        final(out)@ == old(out)@ + v4_text(a),
{
    text::push_decimal(out, (a / 0x100_0000) as u64);
    out.push('.');
    text::push_decimal(out, (a / 0x1_0000 % 0x100) as u64);
    out.push('.');
    text::push_decimal(out, (a / 0x100 % 0x100) as u64);
    out.push('.');
    text::push_decimal(out, (a % 0x100) as u64);
    assert(out@ =~= old(out)@ + v4_text(a));
}

fn push_hex(out: &mut String, n: u16)
    ensures
        final(out)@ == old(out)@ + hex(n as nat),
    decreases n,
{
    if n >= 16 {
        push_hex(out, n / 16);
    }
    let d: u8 = (n % 16) as u8;
    let c = if d < 10 { (48 + d) as char } else { (87 + d) as char };
    out.push(c);
    assert(out@ =~= old(out)@ + hex(n as nat));
}

fn push_groups(out: &mut String, g: &Vec<u16>, from: usize, to: usize)
    requires
        from <= to <= g@.len(),
    ensures
        final(out)@ == old(out)@ + groups_text(g@, from as int, to as int),
{
    let ghost start = out@;
    let mut i: usize = from;
    while i < to
        invariant
            from <= i <= to <= g@.len(),
            out@ == start + groups_text(g@, from as int, i as int),
        decreases to - i,
    {
        if i > from {
            out.push(':');
        }
        push_hex(out, g[i]);
        i += 1;
        assert(out@ =~= start + groups_text(g@, from as int, i as int));
    }
}

/// The eight groups of an address.
fn split_groups(a: u128) -> (g: Vec<u16>)
    ensures
        g@ == groups(a),
{
    let mut g: Vec<u16> = Vec::new();
    g.push((a / 0x1_0000_0000_0000_0000_0000_0000_0000 % 0x1_0000) as u16);
    g.push((a / 0x1_0000_0000_0000_0000_0000_0000 % 0x1_0000) as u16);
    g.push((a / 0x1_0000_0000_0000_0000_0000 % 0x1_0000) as u16);
    g.push((a / 0x1_0000_0000_0000_0000 % 0x1_0000) as u16);
    g.push((a / 0x1_0000_0000_0000 % 0x1_0000) as u16);
    g.push((a / 0x1_0000_0000 % 0x1_0000) as u16);
    g.push((a / 0x1_0000 % 0x1_0000) as u16);
    g.push((a % 0x1_0000) as u16);
    assert(g@ =~= groups(a));
    g
}

fn count_zeros(g: &Vec<u16>, from: usize) -> (n: usize)
    requires
        from <= g@.len(),
    ensures
        n == zeros_at(g@, from as int),
        from + n <= g@.len(),
    decreases g@.len() - from,
{
    if from < g.len() && g[from] == 0 {
        1 + count_zeros(g, from + 1)
    } else {
        0
    }
}

/// The longest run of noughts starts among the groups.
pub proof fn lemma_longest_zeros(g: Seq<u16>, i: int)
    requires
        0 <= i < g.len(),
    ensures
        i <= longest_zeros(g, i) < g.len(),
    decreases g.len() - i,
{
    if i + 1 < g.len() {
        lemma_longest_zeros(g, i + 1);
    }
}

fn push_v6(out: &mut String, a: u128)
    ensures
        final(out)@ == old(out)@ + v6_text(a),
{
    let ghost start = out@;
    if a / 0x1_0000_0000 == 0xffff {
        out.append("::ffff:");
        push_v4(out, (a % 0x1_0000_0000) as u32);
        assert(out@ =~= start + v6_text(a));
        return;
    }
    let g = split_groups(a);
    let mut best: usize = 7;
    let mut i: usize = 7;
    while i > 0
        invariant
            i <= 7,
            g@.len() == 8,
            best < 8,
            best == longest_zeros(g@, i as int),
        decreases i,
    {
        i -= 1;
        if count_zeros(&g, i) >= count_zeros(&g, best) {
            best = i;
        }
    }
    let n: usize = count_zeros(&g, best);
    if n > 1 {
        push_groups(out, &g, 0, best);
        out.append("::");
        push_groups(out, &g, best + n, 8);
    } else {
        push_groups(out, &g, 0, 8);
    }
    assert(out@ =~= start + v6_text(a));
}

/// An address with a port in text, `host:port`, the host as it stands.
pub open spec fn endpoint_text(host: IpAddr, port: u16) -> Seq<char> {
    host.text() + seq![':'] + text::decimal(port as nat)
}

/// An address with a port in text, `host:port`, a version 6 host in square brackets.
pub open spec fn socket_text(host: IpAddr, port: u16) -> Seq<char> {
    match host {
        IpAddr::V4(_) => endpoint_text(host, port),
        IpAddr::V6(_) => seq!['['] + host.text() + "]:"@ + text::decimal(port as nat),
    }
}

/// An address with a port in text, `host:port`, the host as it stands.
pub fn endpoint(host: IpAddr, port: u16) -> (out: String)
    ensures
        out@ == endpoint_text(host, port),
{
    let mut out = String::new();
    host.push_to(&mut out);
    out.push(':');
    text::push_decimal(&mut out, port as u64);
    assert(out@ =~= endpoint_text(host, port));
    out
}

/// An address with a port in text, `host:port`, a version 6 host in square brackets.
pub fn socket(host: IpAddr, port: u16) -> (out: String)
    ensures
        out@ == socket_text(host, port),
{
    match host {
        IpAddr::V4(_) => endpoint(host, port),
        IpAddr::V6(_) => {
            let mut out = String::new();
            out.push('[');
            host.push_to(&mut out);
            out.append("]:");
            text::push_decimal(&mut out, port as u64);
            assert(out@ =~= socket_text(host, port));
            out
        },
    }
}

/// Where an address stands among all: version 4 before version 6, then by its number, then by the
/// port.
pub open spec fn before(a: (IpAddr, u16), b: (IpAddr, u16)) -> bool {
    match (a.0, b.0) {
        (IpAddr::V4(x), IpAddr::V4(y)) => x < y || (x == y && a.1 < b.1),
        (IpAddr::V6(x), IpAddr::V6(y)) => x < y || (x == y && a.1 < b.1),
        (IpAddr::V4(_), IpAddr::V6(_)) => true,
        (IpAddr::V6(_), IpAddr::V4(_)) => false,
    }
}

/// Whether one address stands before another.
pub fn is_before(a: (IpAddr, u16), b: (IpAddr, u16)) -> (out: bool)
    ensures
        out == before(a, b),
{
    match (a.0, b.0) {
        (IpAddr::V4(x), IpAddr::V4(y)) => x < y || (x == y && a.1 < b.1),
        (IpAddr::V6(x), IpAddr::V6(y)) => x < y || (x == y && a.1 < b.1),
        (IpAddr::V4(_), IpAddr::V6(_)) => true,
        (IpAddr::V6(_), IpAddr::V4(_)) => false,
    }
}

/// A set of addresses with ports, kept in order.
#[derive(Debug, PartialEq, Eq)]
pub struct AddrSet {
    pub items: Vec<(IpAddr, u16)>,
}

impl View for AddrSet {
    type V = Set<(IpAddr, u16)>;

    open spec fn view(&self) -> Set<(IpAddr, u16)> {
        self.items@.to_set()
    }
}

impl AddrSet {
    /// The items stand in order, each once.
    pub open spec fn wf(&self) -> bool {
        forall|i: int, j: int|
            0 <= i < j < self.items@.len() ==> before(#[trigger] self.items@[i], #[trigger] self.items@[j])
    }

    /// The empty set.
    pub fn new() -> (out: AddrSet)
        ensures
            out.wf(),
            out@ == Set::<(IpAddr, u16)>::empty(),
    {
        let out = AddrSet { items: Vec::new() };
        assert(out@ =~= Set::empty());
        out
    }

    /// Whether the set holds an address.
    pub fn contains(&self, host: IpAddr, port: u16) -> (out: bool)
        ensures
            out == self@.contains((host, port)),
    {
        let mut i: usize = 0;
        while i < self.items.len()
            invariant
                i <= self.items@.len(),
                forall|j: int| 0 <= j < i ==> self.items@[j] != (host, port),
            decreases self.items@.len() - i,
        {
            let item = self.items[i];
            if item.0 == host && item.1 == port {
                assert(self.items@[i as int] == (host, port));
                return true;
            }
            i += 1;
        }
        false
    }

    /// Put an address into the set; whether it is new there.
    pub fn insert(&mut self, host: IpAddr, port: u16) -> (added: bool)
        requires
            old(self).wf(),
        ensures
            final(self).wf(),
            added == !old(self)@.contains((host, port)),
            final(self)@ == old(self)@.insert((host, port)),
    {
        let x = (host, port);
        let ghost was = self.items@;
        let mut i: usize = 0;
        while i < self.items.len() && is_before(self.items[i], x)
            invariant
                i <= self.items@.len(),
                self.items@ == was,
                x == (host, port),
                forall|j: int| 0 <= j < i ==> before(#[trigger] self.items@[j], x),
            decreases self.items@.len() - i,
        {
            i += 1;
        }
        if i < self.items.len() {
            let item = self.items[i];
            if item.0 == host && item.1 == port {
                assert(was[i as int] == x);
                assert(self@ =~= old(self)@.insert(x));
                return false;
            }
        }
        assert forall|j: int| 0 <= j < was.len() implies was[j] != x by {
            if i <= j {
                assert(!before(was[i as int], x));
            }
        }
        self.items.insert(i, x);
        proof {
            let now = self.items@;
            assert forall|y: (IpAddr, u16)| now.to_set().contains(y) == was.to_set().insert(x).contains(y) by {
                if was.contains(y) {
                    let k = choose|k: int| 0 <= k < was.len() && was[k] == y;
                    if k < i {
                        assert(now[k] == y);
                    } else {
                        assert(now[k + 1] == y);
                    }
                }
                if y == x {
                    assert(now[i as int] == y);
                }
                if now.contains(y) {
                    let k = choose|k: int| 0 <= k < now.len() && now[k] == y;
                    if k < i {
                        assert(was[k] == y);
                    } else if k > i {
                        assert(was[k - 1] == y);
                    }
                }
            }
            assert(self@ =~= old(self)@.insert(x));
            assert forall|a: int, b: int| 0 <= a < b < now.len() implies before(#[trigger] now[a], #[trigger] now[b]) by {
                if a < i && b == i {
                } else if a == i {
                    assert(now[b] == was[b - 1]);
                    assert(!before(was[i as int], x));
                    if b - 1 > i {
                        assert(before(was[i as int], was[b - 1]));
                    }
                } else {
                    let c = if a < i { a } else { a - 1 };
                    let d = if b < i { b } else { b - 1 };
                    assert(now[a] == was[c] && now[b] == was[d]);
                }
            }
        }
        true
    }
}

/// Whether a character can stand in an address: a hexadecimal digit, a colon or a dot.
pub open spec fn is_addr_char(c: char) -> bool {
    '0' <= c <= '9' || 'a' <= c <= 'f' || c == ':' || c == '.'
}

/// Whether a text is made of such characters.
pub open spec fn plain(s: Seq<char>) -> bool {
    forall|i: int| 0 <= i < s.len() ==> is_addr_char(#[trigger] s[i])
}

proof fn lemma_plain_decimal(n: nat)
    ensures
        plain(text::decimal(n)),
        text::decimal(n).len() > 0,
    decreases n,
{
    if n >= 10 {
        lemma_plain_decimal(n / 10);
    }
}

proof fn lemma_plain_hex(n: nat)
    ensures
        plain(hex(n)),
    decreases n,
{
    if n >= 16 {
        lemma_plain_hex(n / 16);
    }
}

proof fn lemma_plain_groups(g: Seq<u16>, i: int, j: int)
    ensures
        plain(groups_text(g, i, j)),
    decreases j - i,
{
    if i < j {
        lemma_plain_hex(g[j - 1] as nat);
        lemma_plain_hex(g[i] as nat);
        if i + 1 < j {
            lemma_plain_groups(g, i, j - 1);
        }
    }
}

proof fn lemma_plain_v4(a: u32)
    ensures
        plain(v4_text(a)),
        v4_text(a).len() > 0,
        v4_text(a)[0] != '[',
{
    let o = octets(a);
    lemma_plain_decimal(o[0]);
    lemma_plain_decimal(o[1]);
    lemma_plain_decimal(o[2]);
    lemma_plain_decimal(o[3]);
    assert(v4_text(a)[0] == text::decimal(o[0])[0]);
}

/// The text of an address is not empty, and holds nothing but hexadecimal digits, colons and dots.
pub proof fn law_address_text_is_plain(ip: IpAddr)
    ensures
        plain(ip.text()),
        ip.text().len() > 0,
{
    match ip {
        IpAddr::V4(a) => {
            lemma_plain_v4(a);
        },
        IpAddr::V6(a) => {
            reveal_strlit("::ffff:");
            reveal_strlit("::");
            lemma_plain_v4((a % 0x1_0000_0000) as u32);
            let g = groups(a);
            let i = longest_zeros(g, 0);
            let n = zeros_at(g, i);
            lemma_plain_groups(g, 0, i);
            lemma_plain_groups(g, i + n, 8);
            lemma_plain_groups(g, 0, 8);
            assert("::"@.len() == 2);
            assert("::ffff:"@.len() == 7);
            if !(a / 0x1_0000_0000 == 0xffff) && n <= 1 {
                lemma_groups_not_empty(g, 8);
            }
        },
    }
}

proof fn lemma_groups_not_empty(g: Seq<u16>, j: int)
    requires
        j >= 1,
    ensures
        groups_text(g, 0, j).len() > 0,
{
    lemma_hex_not_empty(g[0] as nat);
}

proof fn lemma_hex_not_empty(n: nat)
    ensures
        hex(n).len() > 0,
{
}

/// An address of version 4 is written as its four octets in decimal, the first on top, with dots
/// between.
pub proof fn law_version_4_is_written_in_octets(a: u8, b: u8, c: u8, d: u8)
    ensures
        IpAddr::V4((a * 0x100_0000 + b * 0x1_0000 + c * 0x100 + d) as u32).text() == text::decimal(
            a as nat,
        ) + seq!['.'] + text::decimal(b as nat) + seq!['.'] + text::decimal(c as nat) + seq!['.']
            + text::decimal(d as nat),
{
    lemma_octets_of(a as int, b as int, c as int, d as int);
}

proof fn lemma_octets_of(a: int, b: int, c: int, d: int)
    requires
        0 <= a < 256,
        0 <= b < 256,
        0 <= c < 256,
        0 <= d < 256,
    ensures
        ({
            let n = a * 0x100_0000 + b * 0x1_0000 + c * 0x100 + d;
            &&& 0 <= n <= u32::MAX
            &&& n / 0x100_0000 == a
            &&& n / 0x1_0000 % 0x100 == b
            &&& n / 0x100 % 0x100 == c
            &&& n % 0x100 == d
        }),
{
}

/// A port stands behind its host and a colon; where that is asked for, a host of version 6 stands in
/// square brackets.
pub proof fn law_port_stands_behind_its_host(host: IpAddr, port: u16)
    ensures
        endpoint_text(host, port) == host.text() + seq![':'] + text::decimal(port as nat),
        host is V4 ==> socket_text(host, port) == host.text() + seq![':'] + text::decimal(
            port as nat,
        ),
        host is V6 ==> socket_text(host, port) == seq!['['] + host.text() + seq![']', ':']
            + text::decimal(port as nat),
{
    reveal_strlit("]:");
    assert("]:"@ =~= seq![']', ':']);
}

/// Hexadecimal digits are the ten figures and then `a` to `f`, in lower case; a number ends with its
/// last digit, behind the form of the rest, and has no zeros before it.
pub proof fn law_hexadecimal_is_positional(n: nat, d: nat)
    requires
        d < 16,
        n > 0,
    ensures
        hex(n * 16 + d) == hex(n).push(hex_digit(d)),
        hex(d) == seq![hex_digit(d)],
        d < 10 ==> hex_digit(d) as u32 == '0' as u32 + d,
        d >= 10 ==> hex_digit(d) as u32 == 'a' as u32 + d - 10,
{
    assert((n * 16 + d) / 16 == n && (n * 16 + d) % 16 == d) by (nonlinear_arith)
        requires
            d < 16,
    ;
}

/// Groups are written in hexadecimal with colons between.
pub proof fn law_groups_are_parted_by_colons(g: Seq<u16>, i: int, j: int)
    ensures
        groups_text(g, i, i) == Seq::<char>::empty(),
        groups_text(g, i, i + 1) == hex(g[i] as nat),
        i < j ==> groups_text(g, i, j + 1) == groups_text(g, i, j) + seq![':'] + hex(g[j] as nat),
{
}

proof fn lemma_longest_is_first(g: Seq<u16>, i: int)
    requires
        0 <= i < g.len(),
    ensures
        i <= longest_zeros(g, i) < g.len(),
        forall|j: int|
            i <= j < g.len() ==> #[trigger] zeros_at(g, j) <= zeros_at(g, longest_zeros(g, i)),
        forall|j: int|
            i <= j < longest_zeros(g, i) ==> #[trigger] zeros_at(g, j) < zeros_at(
                g,
                longest_zeros(g, i),
            ),
    decreases g.len() - i,
{
    if i + 1 < g.len() {
        lemma_longest_is_first(g, i + 1);
    }
}

/// An address of version 6 that holds one of version 4 shows it in dotted form. In any other, two
/// colons stand for the first of the longest runs of two or more groups that are nought, and all
/// groups are written where there is no such run.
pub proof fn law_version_6_shortens_its_longest_run(a: u128, i: int)
    ensures
        a / 0x1_0000_0000 == 0xffff ==> IpAddr::V6(a).text() == "::ffff:"@ + IpAddr::V4(
            (a % 0x1_0000_0000) as u32,
        ).text(),
        ({
            let g = groups(a);
            let n = zeros_at(g, i);
            a / 0x1_0000_0000 != 0xffff && 0 <= i < 8 && n > 1 && (forall|j: int|
                0 <= j < 8 ==> #[trigger] zeros_at(g, j) <= n) && (forall|j: int|
                0 <= j < i ==> #[trigger] zeros_at(g, j) < n) ==> IpAddr::V6(a).text()
                == groups_text(g, 0, i) + seq![':', ':'] + groups_text(g, i + n, 8)
        }),
        a / 0x1_0000_0000 != 0xffff && (forall|j: int|
            0 <= j < 8 ==> #[trigger] zeros_at(groups(a), j) <= 1) ==> IpAddr::V6(a).text()
            == groups_text(groups(a), 0, 8),
{
    let g = groups(a);
    assert(g.len() == 8);
    lemma_longest_is_first(g, 0);
    reveal_strlit("::");
    assert("::"@ =~= seq![':', ':']);
    let k = longest_zeros(g, 0);
    let n = zeros_at(g, i);
    if 0 <= i < 8 && (forall|j: int| 0 <= j < 8 ==> #[trigger] zeros_at(g, j) <= n) && (forall|
        j: int,
    |
        0 <= j < i ==> #[trigger] zeros_at(g, j) < n) {
        assert(zeros_at(g, k) <= n && n <= zeros_at(g, k));
        if k < i {
            assert(zeros_at(g, k) < n);
        } else if i < k {
            assert(zeros_at(g, i) < zeros_at(g, k));
        }
    }
}

/// A run of groups that are nought is as long as they go on.
pub proof fn law_run_of_noughts_is_as_long_as_it_goes(g: Seq<u16>, i: int, n: nat)
    requires
        0 <= i,
        i + n <= g.len(),
        forall|k: int| i <= k < i + n ==> #[trigger] g[k] == 0,
        i + n == g.len() || g[i + n as int] != 0,
    ensures
        zeros_at(g, i) == n,
    decreases n,
{
    if n > 0 {
        assert(g[i] == 0);
        law_run_of_noughts_is_as_long_as_it_goes(g, i + 1, (n - 1) as nat);
    }
}

/// Addresses stand in order by version, then by number, then by port.
pub proof fn law_addresses_stand_in_order(x: u32, y: u32, v: u128, w: u128, p: u16, q: u16)
    ensures
        before((IpAddr::V4(x), p), (IpAddr::V6(v), q)),
        !before((IpAddr::V6(v), p), (IpAddr::V4(x), q)),
        before((IpAddr::V4(x), p), (IpAddr::V4(y), q)) <==> x < y || x == y && p < q,
        before((IpAddr::V6(v), p), (IpAddr::V6(w), q)) <==> v < w || v == w && p < q,
{
}

} // verus!

//! The credentials that clients of the server must show.
use crate::text;
use vstd::prelude::*;
use vstd::string::*;
use vstd::utf8::*;

verus! {

/// The character that stands for six bits.
pub open spec fn sextet(n: nat) -> char {
    if n < 26 {
        ('A' as u32 + n) as char
    } else if n < 52 {
        ('a' as u32 + n - 26) as char
    } else if n < 62 {
        ('0' as u32 + n - 52) as char
    } else if n == 62 {
        '+'
    } else {
        '/'
    }
}

/// The four characters that stand for the three bytes `a`, `b`, `c`.
pub open spec fn quartet(a: u8, b: u8, c: u8) -> Seq<char> {
    let n = a as nat * 65536 + b as nat * 256 + c as nat;
    seq![sextet(n / 262144), sextet(n / 4096 % 64), sextet(n / 64 % 64), sextet(n % 64)]
}

/// The base64 text of the bytes from position `i` on, padded with `=` to whole groups of four.
pub open spec fn base64_from(b: Seq<u8>, i: int) -> Seq<char>
    decreases b.len() - i,
{
    if i < 0 || i >= b.len() {
        Seq::empty()
    } else if i + 1 == b.len() {
        quartet(b[i], 0, 0).take(2) + seq!['=', '=']
    } else if i + 2 == b.len() {
        quartet(b[i], b[i + 1], 0).take(3) + seq!['=']
    } else {
        quartet(b[i], b[i + 1], b[i + 2]) + base64_from(b, i + 3)
    }
}

/// The base64 text of bytes.
pub open spec fn base64(b: Seq<u8>) -> Seq<char> {
    base64_from(b, 0)
}

/// The characters of base64 are printable ASCII.
pub proof fn lemma_base64_is_plain(b: Seq<u8>, i: int)
    ensures
        forall|k: int|
            0 <= k < base64_from(b, i).len() ==> ' ' < #[trigger] base64_from(b, i)[k] < '\u{7f}',
    decreases b.len() - i,
{
    if 0 <= i < b.len() {
        let q = if i + 1 == b.len() {
            quartet(b[i], 0, 0)
        } else if i + 2 == b.len() {
            quartet(b[i], b[i + 1], 0)
        } else {
            quartet(b[i], b[i + 1], b[i + 2])
        };
        assert forall|k: int| 0 <= k < 4 implies ' ' < #[trigger] q[k] < '\u{7f}' by {}
        if i + 2 < b.len() {
            lemma_base64_is_plain(b, i + 3);
        }
        let rest = base64_from(b, i + 3);
        let all = base64_from(b, i);
        assert forall|k: int| 0 <= k < all.len() implies ' ' < #[trigger] all[k]
            < '\u{7f}' by {
            if k < 4 {
                assert(all[k] == q[k] || all[k] == '=');
            } else {
                assert(all[k] == rest[k - 4]);
            }
        }
    }
}

fn sextet_char(n: u32) -> (c: char)
    requires
        n < 64,
    ensures
        c == sextet(n as nat),
{
    let k: u8 = n as u8;
    if k < 26 {
        (65 + k) as char
    } else if k < 52 {
        (71 + k) as char
    } else if k < 62 {
        (k - 4) as char
    } else if k == 62 {
        '+'
    } else {
        '/'
    }
}

/// Append the first `count` characters of a group of four.
fn push_quartet(out: &mut String, a: u8, b: u8, c: u8, count: usize)
    requires
        2 <= count <= 4,
    ensures
        final(out)@ == old(out)@ + quartet(a, b, c).take(count as int),
        quartet(a, b, c).len() == 4,
{
    let n: u32 = a as u32 * 65536 + b as u32 * 256 + c as u32;
    out.push(sextet_char(n / 262144));
    out.push(sextet_char(n / 4096 % 64));
    if count > 2 {
        out.push(sextet_char(n / 64 % 64));
    }
    if count > 3 {
        out.push(sextet_char(n % 64));
    }
    assert(out@ =~= old(out)@ + quartet(a, b, c).take(count as int));
}

/// Append the base64 text of bytes.
pub fn push_base64(out: &mut String, b: &[u8])
    ensures
        final(out)@ == old(out)@ + base64(b@),
{
    let ghost start = out@;
    let mut i: usize = 0;
    assert(out@ + base64_from(b@, 0) =~= start + base64(b@));
    while i < b.len()
        invariant
            i <= b@.len(),
            start == old(out)@,
            out@ + base64_from(b@, i as int) == start + base64(b@),
        decreases b@.len() - i,
    {
        let left: usize = b.len() - i;
        let ghost before = out@;
        if left == 1 {
            push_quartet(out, b[i], 0, 0, 2);
            out.append("==");
            proof {
                reveal_strlit("==");
                assert("=="@ =~= seq!['=', '=']);
                assert(out@ =~= before + base64_from(b@, i as int));
            }
            return;
        }
        if left == 2 {
            push_quartet(out, b[i], b[i + 1], 0, 3);
            out.push('=');
            assert(out@ =~= before + base64_from(b@, i as int));
            return;
        }
        push_quartet(out, b[i], b[i + 1], b[i + 2], 4);
        proof {
            let q = quartet(b@[i as int], b@[i + 1], b@[i + 2]);
            assert(q.take(4) =~= q);
            assert(out@ + base64_from(b@, i + 3) =~= before + (q + base64_from(b@, i + 3)));
        }
        i += 3;
    }
    assert(out@ =~= start + base64(b@));
}

/// The credentials that clients must show, in the forms in which they show them.
#[derive(Debug, PartialEq, Eq)]
pub struct AuthExpect {
    pub user: String,
    pub pass: String,
    /// The value of the `Proxy-Authorization` header.
    pub basic: String,
}

/// The contents of an [`AuthExpect`].
pub struct AuthView {
    pub user: Seq<char>,
    pub pass: Seq<char>,
    pub basic: Seq<char>,
}

impl View for AuthExpect {
    type V = AuthView;

    open spec fn view(&self) -> AuthView {
        AuthView { user: self.user@, pass: self.pass@, basic: self.basic@ }
    }
}

/// The header value of HTTP basic authentication for `user:password`.
pub open spec fn basic_value(pair: Seq<char>) -> Seq<char> {
    "Basic "@ + base64(encode_utf8(pair))
}

/// The credentials in `user:password`. Only the first colon parts the two; without one there is a
/// user and an empty password.
pub open spec fn expectation(pair: Seq<char>) -> AuthView {
    let n = text::find_from(pair, ':', 0);
    AuthView {
        user: pair.take(n),
        pass: if n < pair.len() {
            pair.skip(n + 1)
        } else {
            Seq::empty()
        },
        basic: basic_value(pair),
    }
}

/// The header value of HTTP basic authentication for `user:password`.
pub fn basic_header_value(pair: &str) -> (out: String)
    ensures
        out@ == basic_value(pair@),
{
    let mut out = String::new();
    out.append("Basic ");
    push_base64(&mut out, pair.as_bytes());
    assert(out@ =~= basic_value(pair@));
    out
}

impl AuthExpect {
    /// The credentials in `user:password`.
    pub fn new(pair: &str) -> (out: AuthExpect)
        ensures
            out@ == expectation(pair@),
    {
        let cs = text::chars_of(pair);
        let n: usize = text::find_char(&cs, ':', 0);
        let user = text::string_of(&cs, 0, n);
        assert(user@ =~= pair@.take(n as int));
        let pass = if n < cs.len() {
            let pass = text::string_of(&cs, n + 1, cs.len());
            assert(pass@ =~= pair@.skip(n + 1));
            pass
        } else {
            String::new()
        };
        AuthExpect { user, pass, basic: basic_header_value(pair) }
    }
}

/// The characters of base64 in the order of what they stand for.
pub open spec fn alphabet() -> Seq<char> {
    "ABCDEFGHIJKLMNOPQRSTUVWXYZabcdefghijklmnopqrstuvwxyz0123456789+/"@
}

proof fn lemma_sextet_is_in_alphabet(n: nat)
    requires
        n < 64,
    ensures
        sextet(n) == alphabet()[n as int],
{
    reveal_strlit("ABCDEFGHIJKLMNOPQRSTUVWXYZabcdefghijklmnopqrstuvwxyz0123456789+/");
}

/// Base64 writes three bytes as four characters of its alphabet, six bits each, and then the rest;
/// one or two bytes at the end are filled up with noughts, and what stands for nothing but those is
/// an equals sign.
pub proof fn law_base64_writes_three_bytes_as_four(a: u8, b: u8, c: u8, rest: Seq<u8>)
    ensures
        base64(seq![a, b, c] + rest) == seq![
            alphabet()[a as int / 4],
            alphabet()[a as int % 4 * 16 + b as int / 16],
            alphabet()[b as int % 16 * 4 + c as int / 64],
            alphabet()[c as int % 64],
        ] + base64(rest),
        base64(seq![a, b]) == seq![
            alphabet()[a as int / 4],
            alphabet()[a as int % 4 * 16 + b as int / 16],
            alphabet()[b as int % 16 * 4],
            '=',
        ],
        base64(seq![a]) == seq![alphabet()[a as int / 4], alphabet()[a as int % 4 * 16], '=', '='],
        base64(Seq::<u8>::empty()) == Seq::<char>::empty(),
{
    lemma_three_bytes(a, b, c, rest);
    lemma_last_bytes(a, b);
}

proof fn lemma_three_bytes(a: u8, b: u8, c: u8, rest: Seq<u8>)
    ensures
        base64(seq![a, b, c] + rest) == seq![
            alphabet()[a as int / 4],
            alphabet()[a as int % 4 * 16 + b as int / 16],
            alphabet()[b as int % 16 * 4 + c as int / 64],
            alphabet()[c as int % 64],
        ] + base64(rest),
{
    lemma_quartet(a, b, c);
    let s = seq![a, b, c] + rest;
    assert(s[0] == a && s[1] == b && s[2] == c);
    assert(s.skip(3) =~= rest);
    lemma_base64_shift(s, rest, 3);
    assert(base64_from(s, 0) == quartet(a, b, c) + base64_from(s, 3));
}

proof fn lemma_last_bytes(a: u8, b: u8)
    ensures
        base64(seq![a, b]) == seq![
            alphabet()[a as int / 4],
            alphabet()[a as int % 4 * 16 + b as int / 16],
            alphabet()[b as int % 16 * 4],
            '=',
        ],
        base64(seq![a]) == seq![alphabet()[a as int / 4], alphabet()[a as int % 4 * 16], '=', '='],
{
    lemma_quartet(a, b, 0);
    lemma_quartet(a, 0, 0);
    let (q, r) = (quartet(a, b, 0), quartet(a, 0, 0));
    assert(q.take(3) =~= seq![q[0], q[1], q[2]]);
    assert(r.take(2) =~= seq![r[0], r[1]]);
    assert(base64(seq![a, b]) =~= seq![q[0], q[1], q[2], '=']);
    assert(base64(seq![a]) =~= seq![r[0], r[1], '=', '=']);
}

/// Three bytes cut into four numbers of six bits.
#[verifier::rlimit(40)]
proof fn lemma_sextets(a: nat, b: nat, c: nat)
    requires
        a < 256,
        b < 256,
        c < 256,
    ensures
        (a * 65536 + b * 256 + c) / 262144 == a / 4,
        (a * 65536 + b * 256 + c) / 4096 % 64 == a % 4 * 16 + b / 16,
        (a * 65536 + b * 256 + c) / 64 % 64 == b % 16 * 4 + c / 64,
        (a * 65536 + b * 256 + c) % 64 == c % 64,
{
    let n = a * 65536 + b * 256 + c;
    let (p, q) = (a / 4, a % 4);
    let (r, s) = (b / 16, b % 16);
    let (t, u) = (c / 64, c % 64);
    assert(n == p * 262144 + (q * 16 + r) * 4096 + (s * 4 + t) * 64 + u);
    assert(n / 64 == p * 4096 + (q * 16 + r) * 64 + (s * 4 + t));
    assert(n / 4096 == p * 64 + (q * 16 + r));
}

proof fn lemma_quartet(a: u8, b: u8, c: u8)
    ensures
        quartet(a, b, c) == seq![
            alphabet()[a as int / 4],
            alphabet()[a as int % 4 * 16 + b as int / 16],
            alphabet()[b as int % 16 * 4 + c as int / 64],
            alphabet()[c as int % 64],
        ],
{
    let n = a as nat * 65536 + b as nat * 256 + c as nat;
    lemma_sextets(a as nat, b as nat, c as nat);
    lemma_sextet_is_in_alphabet(n / 262144);
    lemma_sextet_is_in_alphabet(n / 4096 % 64);
    lemma_sextet_is_in_alphabet(n / 64 % 64);
    lemma_sextet_is_in_alphabet(n % 64);
}

proof fn lemma_base64_shift(s: Seq<u8>, rest: Seq<u8>, i: int)
    requires
        s.len() == rest.len() + 3,
        s.skip(3) == rest,
        3 <= i <= s.len() + 2,
    ensures
        base64_from(s, i) == base64_from(rest, i - 3),
    decreases s.len() - i,
{
    if i < s.len() {
        assert(s[i] == s.skip(3)[i - 3]);
        if i + 1 < s.len() {
            assert(s[i + 1] == s.skip(3)[i - 2]);
        }
        if i + 2 < s.len() {
            assert(s[i + 2] == s.skip(3)[i - 1]);
            lemma_base64_shift(s, rest, i + 3);
        }
    }
}

/// The credentials in `user:password` are the two parts of it, parted at the first colon, and are
/// shown as `Basic` with the whole in base64. Without a colon there is a user alone.
pub proof fn law_credentials_are_parted_at_the_first_colon(user: Seq<char>, pass: Seq<char>)
    requires
        !user.contains(':'),
    ensures
        ({
            let e = expectation(user + seq![':'] + pass);
            &&& e.user == user
            &&& e.pass == pass
            &&& e.basic == seq!['B', 'a', 's', 'i', 'c', ' '] + base64(
                encode_utf8(user + seq![':'] + pass),
            )
        }),
        expectation(user).user == user,
        expectation(user).pass == Seq::<char>::empty(),
        expectation(user).basic == seq!['B', 'a', 's', 'i', 'c', ' '] + base64(encode_utf8(user)),
{
    let pair = user + seq![':'] + pass;
    reveal_strlit("Basic ");
    assert("Basic "@ =~= seq!['B', 'a', 's', 'i', 'c', ' ']);
    lemma_colon_at(user, pair, 0);
    lemma_colon_at(user, user, 0);
    assert(pair.take(user.len() as int) =~= user);
    assert(pair.skip(user.len() as int + 1) =~= pass);
    assert(user.take(user.len() as int) =~= user);
}

proof fn lemma_colon_at(user: Seq<char>, s: Seq<char>, i: int)
    requires
        !user.contains(':'),
        user.len() <= s.len(),
        forall|k: int| 0 <= k < user.len() ==> #[trigger] s[k] == user[k],
        user.len() < s.len() ==> s[user.len() as int] == ':',
        0 <= i <= user.len(),
    ensures
        text::find_from(s, ':', i) == user.len(),
    decreases user.len() - i,
{
    if i < user.len() {
        assert(s[i] == user[i]);
        assert(user.contains(user[i]));
        lemma_colon_at(user, s, i + 1);
    }
}

} // verus!

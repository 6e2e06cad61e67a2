//! The head of an HTTP message: finding, adding and dropping headers, and reading a request.
use crate::text;
use crate::types::{ProxyError, Scheme};
use vstd::prelude::*;
use vstd::slice::*;
use vstd::string::*;
use vstd::utf8::*;

verus! {

broadcast use vstd::seq_lib::group_seq_properties;

/// The most bytes of a request head that are kept before reading stops.
pub const MAX_HEAD: usize = 65536;

/// What `String::from_utf8_lossy` makes of bytes that are not UTF-8.
pub uninterp spec fn utf8_lossy(bytes: Seq<u8>) -> Seq<char>;

/// Bytes as text, with replacement characters where they are not UTF-8.
pub open spec fn lossy(bytes: Seq<u8>) -> Seq<char> {
    if valid_utf8(bytes) {
        decode_utf8(bytes)
    } else {
        utf8_lossy(bytes)
    }
}

/// Whether a text starts with what the bytes hold as far as they are valid UTF-8.
pub open spec fn keeps_valid_start(bytes: Seq<u8>, text: Seq<char>) -> bool {
    forall|n: int|
        0 <= n <= bytes.len() && valid_utf8(#[trigger] bytes.take(n)) ==> decode_utf8(
            bytes.take(n),
        ).is_prefix_of(text)
}

/// `String::from_utf8_lossy`: valid UTF-8 is decoded as it stands, and so is what is valid before
/// the first byte that is not. What stands in for the rest is a function of the bytes alone, and no
/// more is said of it.
#[verifier::external_body]
pub(crate) fn lossy_text(bytes: &[u8]) -> (out: String)
    ensures
        out@ == (if valid_utf8(bytes@) {
            decode_utf8(bytes@)
        } else {
            utf8_lossy(bytes@)
        }),
        keeps_valid_start(bytes@, out@),
{
    String::from_utf8_lossy(bytes).into_owned()
}

/// `std::str::from_utf8`: the text where the bytes are valid UTF-8, and nothing where they are
/// not.
#[verifier::external_body]
fn strict_text(bytes: &[u8]) -> (out: Option<String>)
    ensures
        out is Some == valid_utf8(bytes@),
        out matches Some(s) ==> s@ == decode_utf8(bytes@),
{
    std::str::from_utf8(bytes).ok().map(str::to_owned)
}

/// How the client addressed the server. It decides how the client is answered; the scheme, which
/// is about the target, decides which proxies can serve.
#[derive(Clone, Copy, Debug, PartialEq, Eq, Structural)]
pub enum Frontend {
    /// A request with an absolute target: forward it.
    HttpForward,
    /// `CONNECT`: acknowledge, then tunnel.
    HttpConnect,
    /// SOCKS version 5: acknowledge in that protocol, then tunnel.
    Socks5,
}

/// What the client asks for.
#[derive(Debug, PartialEq, Eq)]
pub struct ClientRequest {
    pub scheme: Scheme,
    pub frontend: Frontend,
    pub host: String,
    pub port: u16,
    /// The bytes to forward; empty for a tunnel.
    pub raw: Vec<u8>,
    /// The value of the `Proxy-Authorization` header.
    pub proxy_auth: Option<String>,
    /// The target as the client wrote it.
    pub path: String,
}

/// The contents of a [`ClientRequest`].
pub struct RequestView {
    pub scheme: Scheme,
    pub frontend: Frontend,
    pub host: Seq<char>,
    pub port: u16,
    pub raw: Seq<u8>,
    pub proxy_auth: Option<Seq<char>>,
    pub path: Seq<char>,
}

impl View for ClientRequest {
    type V = RequestView;

    open spec fn view(&self) -> RequestView {
        RequestView {
            scheme: self.scheme,
            frontend: self.frontend,
            host: self.host@,
            port: self.port,
            raw: self.raw@,
            proxy_auth: text::text_opt(self.proxy_auth),
            path: self.path@,
        }
    }
}

/// The position of the first carriage return and line feed at or after `i`; the length where
/// there is none.
pub open spec fn crlf_from(b: Seq<u8>, i: int) -> int
    decreases b.len() - i,
{
    if i < 0 || i + 1 >= b.len() {
        b.len() as int
    } else if b[i] == 13 && b[i + 1] == 10 {
        i
    } else {
        crlf_from(b, i + 1)
    }
}

/// The position of the first carriage return and line feed at or after `from`; the length where
/// there is none.
fn find_crlf(b: &[u8], from: usize) -> (at: usize)
    requires
        from <= b@.len(),
    ensures
        at == crlf_from(b@, from as int),
        from <= at <= b@.len(),
        at < b@.len() ==> at + 1 < b@.len(),
{
    let mut i: usize = from;
    while i < b.len() && i + 1 < b.len()
        invariant
            from <= i <= b@.len(),
            crlf_from(b@, from as int) == crlf_from(b@, i as int),
        decreases b@.len() - i,
    {
        if b[i] == 13 && b[i + 1] == 10 {
            return i;
        }
        i += 1;
    }
    b.len()
}

/// Append `b[from..to]`.
fn append_range(out: &mut Vec<u8>, b: &[u8], from: usize, to: usize)
    requires
        from <= to <= b@.len(),
    ensures
        final(out)@ == old(out)@ + b@.subrange(from as int, to as int),
{
    let ghost start = out@;
    let mut i: usize = from;
    while i < to
        invariant
            from <= i <= to <= b@.len(),
            out@ == start + b@.subrange(from as int, i as int),
        decreases to - i,
    {
        out.push(b[i]);
        i += 1;
        assert(out@ =~= start + b@.subrange(from as int, i as int));
    }
}

/// The message with a line added right behind its first line; as it is where no line ends.
pub open spec fn injected(raw: Seq<u8>, line: Seq<u8>) -> Seq<u8> {
    let p = crlf_from(raw, 0);
    if p < raw.len() {
        raw.take(p + 2) + line + raw.skip(p + 2)
    } else {
        raw
    }
}

/// Add `header_line`, which brings its own line end, right behind the first line of a message.
/// Where no line ends the message stays as it is.
pub fn inject_header(raw: &[u8], header_line: &[u8]) -> (out: Vec<u8>)
    ensures
        out@ == injected(raw@, header_line@),
{
    let mut out: Vec<u8> = Vec::new();
    let p: usize = find_crlf(raw, 0);
    if p < raw.len() {
        append_range(&mut out, raw, 0, p + 2);
        append_range(&mut out, header_line, 0, header_line.len());
        append_range(&mut out, raw, p + 2, raw.len());
        assert(out@ =~= injected(raw@, header_line@));
    } else {
        append_range(&mut out, raw, 0, raw.len());
        assert(out@ =~= raw@);
    }
    out
}

/// The position of the first line feed at or after `i`; the length where there is none.
pub open spec fn lf_from(b: Seq<u8>, i: int) -> int
    decreases b.len() - i,
{
    if i < 0 || i >= b.len() {
        b.len() as int
    } else if b[i] == 10 {
        i
    } else {
        lf_from(b, i + 1)
    }
}

proof fn lemma_lf_from(b: Seq<u8>, i: int)
    requires
        0 <= i <= b.len(),
    ensures
        i <= lf_from(b, i) <= b.len(),
        lf_from(b, i) < b.len() ==> b[lf_from(b, i)] == 10,
        forall|j: int| i <= j < lf_from(b, i) ==> #[trigger] b[j] != 10,
    decreases b.len() - i,
{
    if i < b.len() && b[i] != 10 {
        lemma_lf_from(b, i + 1);
    }
}

proof fn lemma_lf_shift(b: Seq<u8>, i: int, j: int)
    requires
        0 <= i <= j <= b.len(),
    ensures
        lf_from(b.skip(i), j - i) == lf_from(b, j) - i,
    decreases b.len() - j,
{
    if j < b.len() {
        assert(b.skip(i)[j - i] == b[j]);
        if b[j] != 10 {
            lemma_lf_shift(b, i, j + 1);
        }
    }
}

/// The position of the first line feed at or after `from`; the length where there is none.
fn find_lf(b: &[u8], from: usize) -> (at: usize)
    requires
        from <= b@.len(),
    ensures
        at == lf_from(b@, from as int),
        from <= at <= b@.len(),
{
    let mut i: usize = from;
    while i < b.len()
        invariant
            from <= i <= b@.len(),
            lf_from(b@, from as int) == lf_from(b@, i as int),
        decreases b@.len() - i,
    {
        if b[i] == 10 {
            return i;
        }
        i += 1;
    }
    i
}

/// How many bytes the first line of a message takes, its line end among them.
pub open spec fn line_len(b: Seq<u8>) -> int {
    let p = lf_from(b, 0);
    if p < b.len() {
        p + 1
    } else {
        b.len() as int
    }
}

/// The first line of a message without its line end, which is a line feed or a carriage return and
/// a line feed.
pub open spec fn line_body(b: Seq<u8>) -> Seq<u8> {
    let p = lf_from(b, 0);
    if p < b.len() && p > 0 && b[p - 1] == 13 {
        b.take(p - 1)
    } else {
        b.take(p)
    }
}

/// The lines of a message, in bytes. What follows the last line feed is a line where it is not
/// empty.
pub open spec fn byte_lines(b: Seq<u8>) -> Seq<Seq<u8>>
    decreases b.len(),
    via byte_lines_decreases
{
    if b.len() == 0 {
        Seq::empty()
    } else {
        seq![line_body(b)] + byte_lines(b.skip(line_len(b)))
    }
}

#[via_fn]
proof fn byte_lines_decreases(b: Seq<u8>) {
    lemma_lf_from(b, 0);
}

/// The lines of a message in text. No character reaches over a line feed, so each line can be read
/// by itself.
pub open spec fn head_lines(b: Seq<u8>) -> Seq<Seq<char>> {
    byte_lines(b).map_values(|l: Seq<u8>| lossy(l))
}

/// Whether each line from the `from`th on is read as it stands as far as it is valid UTF-8.
pub open spec fn lines_keep_start(lines: Seq<Seq<u8>>, from: int) -> bool {
    forall|k: int|
        from <= k < lines.len() ==> keeps_valid_start(#[trigger] lines[k], lossy(lines[k]))
}

/// The lines of a message in text.
fn split_head(raw: &[u8]) -> (out: Vec<String>)
    ensures
        text::texts(out@) == head_lines(raw@),
        lines_keep_start(byte_lines(raw@), 0),
{
    let mut out: Vec<String> = Vec::new();
    let mut i: usize = 0;
    let ghost mut done: Seq<Seq<u8>> = Seq::empty();
    assert(raw@.skip(0) =~= raw@);
    assert(done + byte_lines(raw@) =~= byte_lines(raw@));
    assert(text::texts(out@) =~= done.map_values(|l: Seq<u8>| lossy(l)));
    while i < raw.len()
        invariant
            i <= raw@.len(),
            text::texts(out@) == done.map_values(|l: Seq<u8>| lossy(l)),
            done + byte_lines(raw@.skip(i as int)) == byte_lines(raw@),
            lines_keep_start(done, 0),
        decreases raw@.len() - i,
    {
        let p: usize = find_lf(raw, i);
        let ghost rest = raw@.skip(i as int);
        let ghost before = out@;
        let cut: usize = if p < raw.len() && p > i && raw[p - 1] == 13 {
            p - 1
        } else {
            p
        };
        let next: usize = if p < raw.len() {
            p + 1
        } else {
            p
        };
        let line = lossy_text(slice_subrange(raw, i, cut));
        proof {
            lemma_lf_shift(raw@, i as int, i as int);
            assert(raw@.subrange(i as int, cut as int) =~= line_body(rest));
            assert(rest.skip(line_len(rest)) =~= raw@.skip(next as int));
            lemma_one_more_line(done, rest);
        }
        out.push(line);
        assert(text::texts(out@) =~= text::texts(before).push(line@));
        proof {
            let more = done.push(line_body(rest));
            assert(more.map_values(|l: Seq<u8>| lossy(l)) =~= done.map_values(
                |l: Seq<u8>| lossy(l),
            ).push(line@));
            done = more;
        }
        i = next;
    }
    assert(byte_lines(raw@.skip(i as int)) =~= Seq::empty());
    assert(done =~= byte_lines(raw@));
    out
}

/// One line moves from those that are left to those that were read.
proof fn lemma_one_more_line(done: Seq<Seq<u8>>, rest: Seq<u8>)
    requires
        rest.len() > 0,
        lines_keep_start(done, 0),
        keeps_valid_start(line_body(rest), lossy(line_body(rest))),
    ensures
        lines_keep_start(done.push(line_body(rest)), 0),
        done.push(line_body(rest)) + byte_lines(rest.skip(line_len(rest))) == done + byte_lines(
            rest,
        ),
{
    let more = done.push(line_body(rest));
    assert forall|k: int| 0 <= k < more.len() implies keeps_valid_start(
        #[trigger] more[k],
        lossy(more[k]),
    ) by {
        if k < done.len() {
            assert(more[k] == done[k]);
        }
    }
    assert(more + byte_lines(rest.skip(line_len(rest))) =~= done + byte_lines(rest));
}

/// What a line with the header `name` starts with, in lower case.
pub open spec fn header_prefix(name: Seq<char>) -> Seq<char> {
    text::lowered(name).push(':')
}

/// Whether the bytes of a line start with the header `name`, in whatever case.
pub open spec fn is_header_line(line: Seq<u8>, name: Seq<char>) -> bool {
    text::starts_lowered(lossy(line), header_prefix(name))
}

/// Bytes without the lines that start with the header `name`.
pub open spec fn stripped_rest(b: Seq<u8>, name: Seq<char>) -> Seq<u8>
    decreases b.len(),
    via stripped_rest_decreases
{
    if b.len() == 0 {
        Seq::empty()
    } else {
        let kept = if is_header_line(line_body(b), name) {
            Seq::empty()
        } else {
            b.take(line_len(b))
        };
        kept + stripped_rest(b.skip(line_len(b)), name)
    }
}

#[via_fn]
proof fn stripped_rest_decreases(b: Seq<u8>, name: Seq<char>) {
    lemma_lf_from(b, 0);
}

/// The message without the lines that start with the header `name`. The first line of the message
/// is no header and is kept.
pub open spec fn stripped(raw: Seq<u8>, name: Seq<char>) -> Seq<u8> {
    raw.take(line_len(raw)) + stripped_rest(raw.skip(line_len(raw)), name)
}

proof fn lemma_crlf_from(b: Seq<u8>, i: int)
    requires
        0 <= i <= b.len(),
    ensures
        i <= crlf_from(b, i) <= b.len(),
        crlf_from(b, i) < b.len() ==> crlf_from(b, i) + 1 < b.len() && b[crlf_from(b, i)] == 13
            && b[crlf_from(b, i) + 1] == 10,
    decreases b.len() - i,
{
    if i + 1 < b.len() && !(b[i] == 13 && b[i + 1] == 10) {
        lemma_crlf_from(b, i + 1);
    }
}

/// The ASCII lower case of a text.
fn lower_chars(s: &Vec<char>) -> (out: Vec<char>)
    ensures
        out@ == text::lowered(s@),
{
    let mut out: Vec<char> = Vec::new();
    let mut i: usize = 0;
    while i < s.len()
        invariant
            i <= s@.len(),
            out@ == text::lowered(s@.take(i as int)),
        decreases s@.len() - i,
    {
        out.push(text::lower_char(s[i]));
        i += 1;
        assert(out@ =~= text::lowered(s@.take(i as int)));
    }
    assert(s@.take(i as int) =~= s@);
    out
}

/// What a line with the header `name` starts with, in lower case.
fn prefix_of(name: &str) -> (out: Vec<char>)
    ensures
        out@ == header_prefix(name@),
{
    let chars = text::chars_of(name);
    let mut out = lower_chars(&chars);
    out.push(':');
    out
}

/// Whether a line starts with `prefix` once its ASCII letters are in lower case.
fn line_matches(line: &str, prefix: &Vec<char>) -> (yes: bool)
    ensures
        yes == text::starts_lowered(line@, prefix@),
{
    let chars = text::chars_of(line);
    let low = lower_chars(&chars);
    text::holds_at(&low, prefix, 0)
}

/// Drop every line that starts with the header `name`, in whatever case, and however it ends. The
/// first line is no header and stays, and so does the blank line at the end.
pub fn strip_header(raw: &[u8], name: &str) -> (out: Vec<u8>)
    ensures
        out@ == stripped(raw@, name@),
        lines_keep_start(byte_lines(raw@), 1),
{
    let prefix = prefix_of(name);
    let mut out: Vec<u8> = Vec::new();
    let first: usize = find_lf(raw, 0);
    let mut i: usize = if first < raw.len() {
        first + 1
    } else {
        first
    };
    append_range(&mut out, raw, 0, i);
    assert(out@ =~= raw@.take(line_len(raw@)));
    let ghost behind = byte_lines(raw@.skip(i as int));
    let ghost mut done: Seq<Seq<u8>> = Seq::empty();
    assert(done + behind =~= behind);
    while i < raw.len()
        invariant
            i <= raw@.len(),
            done + byte_lines(raw@.skip(i as int)) == behind,
            lines_keep_start(done, 0),
            prefix@ == header_prefix(name@),
            out@ + stripped_rest(raw@.skip(i as int), name@) == stripped(raw@, name@),
        decreases raw@.len() - i,
    {
        let p: usize = find_lf(raw, i);
        let ghost rest = raw@.skip(i as int);
        let ghost before = out@;
        let cut: usize = if p < raw.len() && p > i && raw[p - 1] == 13 {
            p - 1
        } else {
            p
        };
        let next: usize = if p < raw.len() {
            p + 1
        } else {
            p
        };
        let line = lossy_text(slice_subrange(raw, i, cut));
        proof {
            lemma_lf_shift(raw@, i as int, i as int);
            assert(raw@.subrange(i as int, cut as int) =~= line_body(rest));
            assert(rest.skip(line_len(rest)) =~= raw@.skip(next as int));
            assert(rest.take(line_len(rest)) =~= raw@.subrange(i as int, next as int));
            lemma_one_more_line(done, rest);
            done = done.push(line_body(rest));
        }
        if !line_matches(line.as_str(), &prefix) {
            append_range(&mut out, raw, i, next);
        }
        let ghost tail = stripped_rest(raw@.skip(next as int), name@);
        let ghost kept = if is_header_line(line_body(rest), name@) {
            Seq::<u8>::empty()
        } else {
            rest.take(line_len(rest))
        };
        assert(out@ =~= before + kept);
        assert(out@ + tail =~= before + (kept + tail));
        i = next;
    }
    assert(stripped_rest(raw@.skip(i as int), name@) =~= Seq::empty());
    assert(out@ =~= stripped(raw@, name@));
    proof {
        assert(byte_lines(raw@.skip(i as int)) =~= Seq::empty());
        assert(done =~= behind);
        lemma_lf_from(raw@, 0);
        let lines = byte_lines(raw@);
        assert forall|k: int| 1 <= k < lines.len() implies keeps_valid_start(
            #[trigger] lines[k],
            lossy(lines[k]),
        ) by {
            assert(lines[k] == done[k - 1]);
        }
    }
    out
}

/// The trimmed text behind the first of the lines from position `i` on that starts with the
/// header `name`.
pub open spec fn header_in(lines: Seq<Seq<char>>, name: Seq<char>, i: int) -> Option<Seq<char>>
    decreases lines.len() - i,
{
    if i < 0 || i >= lines.len() {
        None
    } else if text::starts_lowered(lines[i], header_prefix(name)) {
        Some(text::trimmed(lines[i].skip(name.len() as int + 1)))
    } else {
        header_in(lines, name, i + 1)
    }
}

/// The value of the first header `name` of a message, without white space around it.
pub open spec fn header(raw: Seq<u8>, name: Seq<char>) -> Option<Seq<char>> {
    header_in(head_lines(raw), name, 1)
}

/// Look for the header `name` in the lines behind the first.
fn header_of(lines: &Vec<String>, name: &str) -> (out: Option<String>)
    ensures
        text::text_opt(out) == header_in(text::texts(lines@), name@, 1),
{
    let prefix = prefix_of(name);
    let n: usize = prefix.len();
    assert(n == name@.len() + 1);
    let mut i: usize = 1;
    while i < lines.len()
        invariant
            1 <= i,
            prefix@ == header_prefix(name@),
            n == name@.len() + 1,
            header_in(text::texts(lines@), name@, 1) == header_in(
                text::texts(lines@),
                name@,
                i as int,
            ),
        decreases lines@.len() - i,
    {
        assert(text::texts(lines@)[i as int] == lines@[i as int]@);
        if line_matches(lines[i].as_str(), &prefix) {
            let chars = text::chars_of(lines[i].as_str());
            assert(text::lowered(chars@).len() == chars@.len());
            let mut rest: Vec<char> = Vec::new();
            let mut j: usize = n;
            while j < chars.len()
                invariant
                    n <= j <= chars@.len(),
                    rest@ == chars@.subrange(n as int, j as int),
                decreases chars@.len() - j,
            {
                rest.push(chars[j]);
                j += 1;
            }
            assert(rest@ =~= chars@.skip(name@.len() as int + 1));
            let value = text::trim(&rest);
            return Some(text::string_of(&value, 0, value.len()));
        }
        i += 1;
    }
    None
}

/// The value of the first header `name` of a message, without white space around it.
pub fn header_value(raw: &[u8], name: &str) -> (out: Option<String>)
    ensures
        text::text_opt(out) == header(raw@, name@),
        lines_keep_start(byte_lines(raw@), 0),
{
    let lines = split_head(raw);
    header_of(&lines, name)
}

/// The number in a text where it is a port, else `default`.
pub open spec fn port_or(s: Seq<char>, default: u16) -> u16 {
    match text::number(s, 65535) {
        Ok(n) => n as u16,
        Err(_) => default,
    }
}

/// The number in `s[from..]` where it is a port, else `default`.
fn port_from(s: &Vec<char>, from: usize, default: u16) -> (out: u16)
    requires
        from <= s@.len(),
    ensures
        out == port_or(s@.skip(from as int), default),
{
    let tail = text::string_of(s, from, s.len());
    let digits = text::chars_of(tail.as_str());
    assert(digits@ =~= s@.skip(from as int));
    match text::parse_number(&digits, 65535) {
        Ok(n) => n as u16,
        Err(_) => default,
    }
}

/// The host and the port of `host:port`. A host in square brackets may hold colons; where no port
/// can be read, `default` stands for it.
pub open spec fn host_port(s: Seq<char>, default: u16) -> (Seq<char>, u16) {
    let bracketed = s.len() > 0 && s[0] == '[';
    let close = text::find_text(s, seq![']', ':'], 1);
    let colon = text::rfind_from(s, ':', s.len() as int);
    if bracketed && close is Some {
        (s.subrange(1, close->0), port_or(s.skip(close->0 + 2), default))
    } else if bracketed && s.len() > 1 && s.last() == ']' {
        (s.subrange(1, s.len() - 1), default)
    } else if colon > 1 {
        (s.take(colon - 1), port_or(s.skip(colon), default))
    } else {
        (s, default)
    }
}

/// Split `host:port`, with a version 6 address in square brackets, and `default` for a port that
/// is missing or no number.
pub fn split_host_port(s: &str, default: u16) -> (out: (String, u16))
    ensures
        (out.0@, out.1) == host_port(s@, default),
{
    let cs = text::chars_of(s);
    if cs.len() > 0 && cs[0] == '[' {
        let mut pat: Vec<char> = Vec::new();
        pat.push(']');
        pat.push(':');
        assert(pat@ =~= seq![']', ':']);
        if let Some(i) = text::find_chars(&cs, &pat, 1) {
            return (text::string_of(&cs, 1, i), port_from(&cs, i + 2, default));
        }
        if cs.len() > 1 && cs[cs.len() - 1] == ']' {
            return (text::string_of(&cs, 1, cs.len() - 1), default);
        }
    }
    let colon: usize = text::rfind_char(&cs, ':');
    if colon > 1 {
        let host = text::string_of(&cs, 0, colon - 1);
        assert(host@ =~= cs@.take(colon - 1));
        return (host, port_from(&cs, colon, default));
    }
    (s.to_owned(), default)
}

/// The status in the first line of a response: its second word, where that is a number; nought
/// where there is none.
pub open spec fn status_of(head: Seq<u8>) -> u16 {
    if valid_utf8(head) && text::words(decode_utf8(head)).len() > 1 {
        port_or(text::words(decode_utf8(head))[1], 0)
    } else {
        0
    }
}

/// The status in the first line of a response, `200` of `HTTP/1.1 200 OK`; nought where there is
/// none, which no list of allowed codes holds.
pub fn parse_http_status(head: &[u8]) -> (code: u16)
    ensures
        code == status_of(head@),
{
    match strict_text(head) {
        None => 0,
        Some(s) => {
            let chars = text::chars_of(s.as_str());
            let words = text::split_words(&chars);
            assert(text::texts(words@).len() == words@.len());
            if words.len() > 1 {
                assert(text::texts(words@)[1] == words@[1]@);
                let code = text::chars_of(words[1].as_str());
                assert(code@.skip(0) =~= code@);
                port_from(&code, 0, 0)
            } else {
                0
            }
        },
    }
}

/// Whether a request says that a body follows: it is sent in chunks, or its length is not nought.
/// A length that cannot be read counts as a body.
pub open spec fn declares_body(raw: Seq<u8>) -> bool {
    ||| header(raw, "Transfer-Encoding"@) is Some
    ||| match header(raw, "Content-Length"@) {
        None => false,
        Some(v) => match text::number(text::trimmed(v), u64::MAX as nat) {
            Ok(n) => n > 0,
            Err(_) => true,
        },
    }
}

/// Whether a request says that a body follows. A length that cannot be read counts as a body.
pub fn request_has_body(raw: &[u8]) -> (yes: bool)
    ensures
        yes == declares_body(raw@),
{
    if header_value(raw, "Transfer-Encoding").is_some() {
        return true;
    }
    match header_value(raw, "Content-Length") {
        None => false,
        Some(v) => {
            let chars = text::chars_of(v.as_str());
            let digits = text::trim(&chars);
            match text::parse_number(&digits, u64::MAX) {
                Ok(n) => n > 0,
                Err(_) => true,
            }
        },
    }
}

/// The host and port that a request with an absolute target, or with a `Host` header, is for.
pub open spec fn authority(uri: Seq<char>, raw: Seq<u8>) -> Option<Seq<char>> {
    match text::after_prefix(uri, "http://"@) {
        Some(rest) => Some(rest.take(text::find_from(rest, '/', 0))),
        None => header(raw, "Host"@),
    }
}

/// What a request head asks for: a tunnel for `CONNECT`, and anything else forwarded to the host
/// that it names. `None` where the first line lacks a method or a target, or no host is named.
pub open spec fn request_of(raw: Seq<u8>) -> Option<RequestView> {
    let lines = head_lines(raw);
    if lines.len() == 0 || text::words(lines[0]).len() < 2 {
        None
    } else {
        let method = text::words(lines[0])[0];
        let uri = text::words(lines[0])[1];
        let auth = header(raw, "Proxy-Authorization"@);
        if text::lowered(method) == text::lowered("CONNECT"@) {
            let (host, port) = host_port(uri, 443);
            Some(
                RequestView {
                    scheme: Scheme::Https,
                    frontend: Frontend::HttpConnect,
                    host,
                    port,
                    raw: Seq::empty(),
                    proxy_auth: auth,
                    path: uri,
                },
            )
        } else {
            match authority(uri, raw) {
                None => None,
                Some(at) => {
                    let (host, port) = host_port(at, 80);
                    Some(
                        RequestView {
                            scheme: Scheme::Http,
                            frontend: Frontend::HttpForward,
                            host,
                            port,
                            raw,
                            proxy_auth: auth,
                            path: uri,
                        },
                    )
                },
            }
        }
    }
}

/// Read what a complete request head asks for.
pub fn parse_request_head(raw: Vec<u8>) -> (out: Option<ClientRequest>)
    ensures
        match out {
            Some(req) => request_of(raw@) == Some(req@),
            None => request_of(raw@) is None,
        },
        lines_keep_start(byte_lines(raw@), 0),
{
    let lines = split_head(raw.as_slice());
    assert(text::texts(lines@).len() == lines@.len());
    if lines.len() == 0 {
        return None;
    }
    assert(text::texts(lines@)[0] == lines@[0]@);
    let first = text::chars_of(lines[0].as_str());
    let words = text::split_words(&first);
    assert(text::texts(words@).len() == words@.len());
    if words.len() < 2 {
        return None;
    }
    assert(text::texts(words@)[0] == words@[0]@);
    assert(text::texts(words@)[1] == words@[1]@);
    let path = words[1].clone();
    let proxy_auth = header_of(&lines, "Proxy-Authorization");
    if text::same_ignoring_case(words[0].as_str(), "CONNECT") {
        let (host, port) = split_host_port(path.as_str(), 443);
        let req = ClientRequest {
            scheme: Scheme::Https,
            frontend: Frontend::HttpConnect,
            host,
            port,
            raw: Vec::new(),
            proxy_auth,
            path,
        };
        return Some(req);
    }
    let at = match text::strip_prefix(path.as_str(), "http://") {
        Some(rest) => {
            let cs = text::chars_of(rest.as_str());
            let end: usize = text::find_char(&cs, '/', 0);
            let at = text::string_of(&cs, 0, end);
            assert(at@ =~= rest@.take(text::find_from(rest@, '/', 0)));
            at
        },
        None => match header_of(&lines, "Host") {
            Some(h) => h,
            None => {
                return None;
            },
        },
    };
    let (host, port) = split_host_port(at.as_str(), 80);
    Some(
        ClientRequest {
            scheme: Scheme::Http,
            frontend: Frontend::HttpForward,
            host,
            port,
            raw,
            proxy_auth,
            path,
        },
    )
}

/// What came of waiting for the next byte.
#[derive(Clone, Copy, Debug, PartialEq, Eq, Structural)]
pub enum ReadEvent {
    /// A byte arrived.
    Byte(u8),
    /// The other side closed.
    Closed,
    /// Reading failed.
    Failed,
    /// The time was up.
    TimedOut,
}

/// Whether a request head is complete: a blank line ends it, or it has grown too long.
pub open spec fn head_done(b: Seq<u8>) -> bool {
    ||| b.len() > MAX_HEAD
    ||| b.len() >= 4 && b.skip(b.len() - 4) == seq![13u8, 10u8, 13u8, 10u8]
}

/// The request head as far as it has come.
#[derive(Debug)]
pub struct HeadReader {
    pub head: Vec<u8>,
}

/// How reading a request head goes on.
#[derive(Debug)]
pub enum HeadStep {
    /// Read on.
    More(HeadReader),
    /// The head is complete.
    Complete(Vec<u8>),
    /// The client is gone, or too slow.
    Gone,
}

impl HeadReader {
    /// Start with the byte that showed the client to speak HTTP.
    pub fn new(first: u8) -> (out: HeadReader)
        ensures
            out.head@ == seq![first],
    {
        let mut head: Vec<u8> = Vec::new();
        head.push(first);
        assert(head@ =~= seq![first]);
        HeadReader { head }
    }

    /// Take in what came of waiting for the next byte.
    pub fn step(self, event: ReadEvent) -> (out: HeadStep)
        ensures
            match event {
                ReadEvent::Byte(b) => {
                    let grown = self.head@.push(b);
                    if head_done(grown) {
                        out matches HeadStep::Complete(h) && h@ == grown
                    } else {
                        out matches HeadStep::More(r) && r.head@ == grown
                    }
                },
                _ => out is Gone,
            },
    {
        let mut head = self.head;
        match event {
            ReadEvent::Byte(b) => {
                head.push(b);
                let n: usize = head.len();
                let blank = n >= 4 && head[n - 4] == 13 && head[n - 3] == 10 && head[n - 2] == 13
                    && head[n - 1] == 10;
                proof {
                    if n >= 4 {
                        let tail = head@.skip(n - 4);
                        assert(tail[0] == head@[n - 4] && tail[1] == head@[n - 3] && tail[2]
                            == head@[n - 2] && tail[3] == head@[n - 1]);
                        if blank {
                            assert(tail =~= seq![13u8, 10u8, 13u8, 10u8]);
                        } else {
                            assert(tail != seq![13u8, 10u8, 13u8, 10u8]);
                        }
                    }
                }
                if blank || n > MAX_HEAD {
                    HeadStep::Complete(head)
                } else {
                    HeadStep::More(HeadReader { head })
                }
            },
            _ => HeadStep::Gone,
        }
    }
}

/// The most bytes of a status line that are kept before reading stops.
pub const MAX_STATUS_LINE: usize = 256;

/// The status line of a response as far as it has come.
#[derive(Debug)]
pub struct StatusReader {
    pub head: Vec<u8>,
}

/// How reading a status line goes on.
#[derive(Debug)]
pub enum StatusStep {
    /// Read on.
    More(StatusReader),
    /// The line is complete, its end included.
    Line(Vec<u8>),
    /// The upstream failed; the client has seen nothing of it yet.
    Failed(ProxyError),
}

impl StatusReader {
    /// Start with nothing read.
    pub fn new() -> (out: StatusReader)
        ensures
            out.head@.len() == 0,
    {
        StatusReader { head: Vec::new() }
    }

    /// Take in what came of waiting for the next byte. A line feed ends the line, and so does its
    /// greatest length.
    pub fn step(self, event: ReadEvent) -> (out: StatusStep)
        ensures
            match event {
                ReadEvent::Byte(b) => {
                    let grown = self.head@.push(b);
                    if b == 10 || grown.len() >= MAX_STATUS_LINE {
                        out matches StatusStep::Line(h) && h@ == grown
                    } else {
                        out matches StatusStep::More(r) && r.head@ == grown
                    }
                },
                ReadEvent::Closed => out == StatusStep::Failed(ProxyError::EmptyRecv),
                ReadEvent::Failed => out == StatusStep::Failed(ProxyError::Reset),
                ReadEvent::TimedOut => out == StatusStep::Failed(ProxyError::Timeout),
            },
    {
        let mut head = self.head;
        match event {
            ReadEvent::Byte(b) => {
                head.push(b);
                if b == 10 || head.len() >= MAX_STATUS_LINE {
                    StatusStep::Line(head)
                } else {
                    StatusStep::More(StatusReader { head })
                }
            },
            ReadEvent::Closed => StatusStep::Failed(ProxyError::EmptyRecv),
            ReadEvent::Failed => StatusStep::Failed(ProxyError::Reset),
            ReadEvent::TimedOut => StatusStep::Failed(ProxyError::Timeout),
        }
    }
}

proof fn lemma_lf_at(b: Seq<u8>, i: int, p: int)
    requires
        0 <= i <= p < b.len(),
        b[p] == 10,
        forall|j: int| i <= j < p ==> #[trigger] b[j] != 10,
    ensures
        lf_from(b, i) == p,
    decreases p - i,
{
    if i < p {
        lemma_lf_at(b, i + 1, p);
    }
}

/// The first line of bytes stays their first line with other bytes behind, where it has a line end.
proof fn lemma_line_before(b: Seq<u8>, rest: Seq<u8>)
    requires
        lf_from(b, 0) < b.len(),
    ensures
        line_len(b + rest) == line_len(b),
        line_body(b + rest) == line_body(b),
        0 < line_len(b) <= b.len(),
        (b + rest).take(line_len(b)) == b.take(line_len(b)),
        (b + rest).skip(line_len(b)) == b.skip(line_len(b)) + rest,
{
    lemma_lf_from(b, 0);
    let p = lf_from(b, 0);
    let t = b + rest;
    assert forall|j: int| 0 <= j < p implies #[trigger] t[j] != 10 by {
        assert(t[j] == b[j]);
    }
    assert(t[p] == b[p]);
    lemma_lf_at(t, 0, p);
    assert(line_body(t) =~= line_body(b));
    assert(t.take(p + 1) =~= b.take(p + 1));
    assert(t.skip(p + 1) =~= b.skip(p + 1) + rest);
}

/// The first line of bytes, taken by itself, is a line with the same body.
proof fn lemma_line_alone(b: Seq<u8>)
    requires
        lf_from(b, 0) < b.len(),
    ensures
        lf_from(b.take(line_len(b)), 0) < b.take(line_len(b)).len(),
        line_len(b.take(line_len(b))) == line_len(b),
        line_body(b.take(line_len(b))) == line_body(b),
{
    lemma_lf_from(b, 0);
    let p = lf_from(b, 0);
    let x = b.take(p + 1);
    assert forall|j: int| 0 <= j < p implies #[trigger] x[j] != 10 by {
        assert(x[j] == b[j]);
    }
    assert(x[p] == b[p]);
    lemma_lf_at(x, 0, p);
    assert(line_body(x) =~= line_body(b));
}

/// The lines of bytes whose first line is that of `b`, with `rest` behind it.
proof fn lemma_lines_cons(b: Seq<u8>, rest: Seq<u8>)
    requires
        b.len() > 0,
        lf_from(b, 0) < b.len() || rest.len() == 0,
    ensures
        byte_lines(b.take(line_len(b)) + rest) == seq![line_body(b)] + byte_lines(rest),
{
    lemma_lf_from(b, 0);
    let x = b.take(line_len(b));
    if lf_from(b, 0) < b.len() {
        lemma_line_alone(b);
        lemma_line_before(x, rest);
        assert(x.skip(line_len(x)) + rest =~= rest);
    } else {
        assert(x + rest =~= b);
        assert(b.skip(line_len(b)) =~= rest);
    }
}

/// Bytes without a line feed, with a line end behind them, are one line.
pub proof fn lemma_one_line(b: Seq<u8>)
    requires
        forall|k: int| 0 <= k < b.len() ==> #[trigger] b[k] != 10,
    ensures
        byte_lines(b + seq![13u8, 10u8]) == seq![b],
{
    let t = b + seq![13u8, 10u8];
    assert forall|j: int| 0 <= j < b.len() + 1 implies #[trigger] t[j] != 10 by {
        if j < b.len() {
            assert(t[j] == b[j]);
        }
    }
    lemma_lf_at(t, 0, b.len() as int + 1);
    assert(line_body(t) =~= b);
    assert(byte_lines(t.skip(line_len(t))) =~= Seq::empty());
    assert(byte_lines(t) =~= seq![b]);
}

/// The lines of two texts, the first of which ends with a line end, are those of the one and of the
/// other.
pub proof fn lemma_lines_of_both(a: Seq<u8>, b: Seq<u8>)
    requires
        a.len() > 0 ==> a.last() == 10,
    ensures
        byte_lines(a + b) == byte_lines(a) + byte_lines(b),
    decreases a.len(),
{
    if a.len() == 0 {
        assert(a + b =~= b);
        assert(byte_lines(a) + byte_lines(b) =~= byte_lines(b));
    } else {
        lemma_lf_from(a, 0);
        if lf_from(a, 0) == a.len() {
            assert(a[a.len() - 1] != 10);
        }
        lemma_line_before(a, b);
        let rest = a.skip(line_len(a));
        if rest.len() > 0 {
            assert(rest.last() == a.last());
        }
        lemma_lines_of_both(rest, b);
        assert(byte_lines(a + b) =~= seq![line_body(a)] + (byte_lines(rest) + byte_lines(b)));
        assert(byte_lines(a + b) =~= byte_lines(a) + byte_lines(b));
    }
}

/// The lines that do not start with the header `name`, in order.
pub open spec fn other_lines(lines: Seq<Seq<u8>>, name: Seq<char>) -> Seq<Seq<u8>>
    decreases lines.len(),
{
    if lines.len() == 0 {
        Seq::empty()
    } else {
        let rest = other_lines(lines.skip(1), name);
        if is_header_line(lines[0], name) {
            rest
        } else {
            seq![lines[0]] + rest
        }
    }
}

proof fn lemma_other_lines(lines: Seq<Seq<u8>>, name: Seq<char>)
    ensures
        forall|k: int|
            0 <= k < other_lines(lines, name).len() ==> !is_header_line(
                #[trigger] other_lines(lines, name)[k],
                name,
            ),
    decreases lines.len(),
{
    if lines.len() > 0 {
        lemma_other_lines(lines.skip(1), name);
        let rest = other_lines(lines.skip(1), name);
        let all = other_lines(lines, name);
        if !is_header_line(lines[0], name) {
            assert forall|k: int| 0 <= k < all.len() implies !is_header_line(#[trigger] all[k], name) by {
                if k > 0 {
                    assert(all[k] == rest[k - 1]);
                }
            }
        }
    }
}

proof fn lemma_stripped_rest(b: Seq<u8>, name: Seq<char>)
    ensures
        byte_lines(stripped_rest(b, name)) == other_lines(byte_lines(b), name),
        stripped_rest(stripped_rest(b, name), name) == stripped_rest(b, name),
    decreases b.len(),
{
    if b.len() > 0 {
        lemma_lf_from(b, 0);
        let rest = b.skip(line_len(b));
        let less = stripped_rest(rest, name);
        lemma_stripped_rest(rest, name);
        assert(byte_lines(b).skip(1) =~= byte_lines(rest));
        assert(byte_lines(b)[0] == line_body(b));
        if is_header_line(line_body(b), name) {
            assert(stripped_rest(b, name) =~= less);
        } else {
            let x = b.take(line_len(b));
            if lf_from(b, 0) == b.len() {
                assert(rest.len() == 0);
                assert(less.len() == 0);
                assert(x + less =~= b);
                assert(stripped_rest(b, name) =~= b);
                assert(byte_lines(rest) =~= Seq::empty());
                assert(other_lines(byte_lines(rest), name) =~= Seq::empty());
            } else {
                lemma_lines_cons(b, less);
                lemma_line_alone(b);
                lemma_line_before(x, less);
                assert(x.skip(line_len(x)) + less =~= less);
                assert(x.take(line_len(x)) =~= x);
                assert(stripped_rest(x + less, name) =~= x + less);
            }
        }
    }
}

/// Dropping a header keeps the first line of a message and, in their order, exactly those lines
/// behind it that do not start with the header.
pub proof fn law_stripping_drops_only_the_header(raw: Seq<u8>, name: Seq<char>)
    requires
        raw.len() > 0,
    ensures
        byte_lines(stripped(raw, name)) == seq![byte_lines(raw)[0]] + other_lines(
            byte_lines(raw).skip(1),
            name,
        ),
{
    lemma_lf_from(raw, 0);
    let rest = raw.skip(line_len(raw));
    lemma_stripped_rest(rest, name);
    lemma_lines_cons(raw, stripped_rest(rest, name));
    assert(byte_lines(raw).skip(1) =~= byte_lines(rest));
}

/// Whether a line is a header line is told by its start alone, where that is valid UTF-8 and long
/// enough, whatever stands behind it.
pub proof fn law_header_line_is_told_by_its_start(line: Seq<u8>, name: Seq<char>, n: int)
    requires
        keeps_valid_start(line, lossy(line)),
        0 <= n <= line.len(),
        valid_utf8(line.take(n)),
        decode_utf8(line.take(n)).len() > name.len(),
    ensures
        is_header_line(line, name) == text::starts_lowered(
            decode_utf8(line.take(n)),
            header_prefix(name),
        ),
{
    let start = decode_utf8(line.take(n));
    let whole = lossy(line);
    let k = header_prefix(name).len() as int;
    assert(start.is_prefix_of(whole));
    assert(start =~= whole.take(start.len() as int));
    assert(text::lowered(start).subrange(0, k) =~= text::lowered(whole).subrange(0, k));
}

/// The text of a header line, which ends with a carriage return and a line feed.
pub open spec fn header_text(name: Seq<char>, value: Seq<char>) -> Seq<char> {
    name + seq![':'] + value + seq!['\r', '\n']
}

/// A text without a line feed has none in its bytes.
proof fn lemma_no_lf_byte(s: Seq<char>)
    requires
        !s.contains('\n'),
    ensures
        forall|k: int| 0 <= k < encode_utf8(s).len() ==> #[trigger] encode_utf8(s)[k] != 10,
    decreases s.len(),
{
    if s.len() > 0 {
        let c = s[0] as u32;
        let rest = s.drop_first();
        assert(s.contains(s[0]));
        assert(!rest.contains('\n')) by {
            if rest.contains('\n') {
                let k = choose|k: int| 0 <= k < rest.len() && rest[k] == '\n';
                assert(s[k + 1] == '\n');
            }
        }
        lemma_no_lf_byte(rest);
        char_is_scalar(s[0]);
        assert(c != 10) by {
            if c == 10 {
                char_u32_cast(s[0], c);
                assert(s[0] == '\n');
            }
        }
        lemma_scalar_has_no_lf(c);
        let head = encode_scalar(c);
        let all = encode_utf8(s);
        assert(all =~= head + encode_utf8(rest));
        assert forall|k: int| 0 <= k < all.len() implies #[trigger] all[k] != 10 by {
            if k < head.len() {
                assert(all[k] == head[k]);
            } else {
                assert(all[k] == encode_utf8(rest)[k - head.len()]);
            }
        }
    }
}

proof fn lemma_scalar_has_no_lf(c: u32)
    requires
        c != 10,
        is_scalar(c),
    ensures
        forall|k: int| 0 <= k < encode_scalar(c).len() ==> #[trigger] encode_scalar(c)[k] != 10,
{
    if has_width_1_encoding(c) {
        assert(leading_byte_width_1(c) != 10) by (bit_vector)
            requires
                c != 10,
                c <= 0x7f,
        ;
    } else {
        assert(leading_byte_width_2(c) >= 0x80) by (bit_vector);
        assert(leading_byte_width_3(c) >= 0x80) by (bit_vector);
        assert(leading_byte_width_4(c) >= 0x80) by (bit_vector);
        assert(last_continuation_byte(c) >= 0x80) by (bit_vector);
        assert(second_last_continuation_byte(c) >= 0x80) by (bit_vector);
        assert(third_last_continuation_byte(c) >= 0x80) by (bit_vector);
    }
}

/// The bytes of two texts are those of the one and of the other.
proof fn lemma_bytes_of_both(a: Seq<char>, b: Seq<char>)
    ensures
        encode_utf8(a + b) == encode_utf8(a) + encode_utf8(b),
    decreases a.len(),
{
    if a.len() == 0 {
        assert(a + b =~= b);
        assert(encode_utf8(a) + encode_utf8(b) =~= encode_utf8(b));
    } else {
        lemma_bytes_of_both(a.drop_first(), b);
        assert((a + b).drop_first() =~= a.drop_first() + b);
        let head = encode_scalar(a[0] as u32);
        assert(head + (encode_utf8(a.drop_first()) + encode_utf8(b)) =~= (head + encode_utf8(
            a.drop_first(),
        )) + encode_utf8(b));
    }
}

/// The bytes of a header line are one line, which starts with the header.
proof fn lemma_header_bytes(name: Seq<char>, written: Seq<char>, value: Seq<char>)
    requires
        text::lowered(written) == text::lowered(name),
        !written.contains('\n'),
        !value.contains('\n'),
    ensures
        ({
            let line = encode_utf8(header_text(written, value));
            &&& line.len() > 0
            &&& lf_from(line, 0) == line.len() - 1
            &&& is_header_line(line_body(line), name)
        }),
{
    let body = written + seq![':'] + value;
    let end = seq!['\r', '\n'];
    let b = encode_utf8(body);
    let line = encode_utf8(header_text(written, value));
    assert(!body.contains('\n')) by {
        if body.contains('\n') {
            let k = choose|k: int| 0 <= k < body.len() && body[k] == '\n';
            if k < written.len() {
                assert(written[k] == '\n');
            } else if k > written.len() {
                assert(value[k - written.len() - 1] == '\n');
            }
        }
    }
    lemma_no_lf_byte(body);
    lemma_bytes_of_both(body, end);
    is_ascii_chars_encode_utf8(end);
    assert(encode_utf8(end)[0] == 13u8 && encode_utf8(end)[1] == 10u8);
    assert(encode_utf8(end) =~= seq![13u8, 10u8]);
    assert(line =~= b + seq![13u8, 10u8]);
    assert forall|j: int| 0 <= j < b.len() + 1 implies #[trigger] line[j] != 10 by {
        if j < b.len() {
            assert(line[j] == b[j]);
        }
    }
    lemma_lf_at(line, 0, b.len() as int + 1);
    assert(line_body(line) =~= b);
    encode_utf8_valid_utf8(body);
    encode_utf8_decode_utf8(body);
    let k = name.len() as int + 1;
    assert(text::lowered(written).len() == written.len());
    assert(text::lowered(name).len() == name.len());
    assert(text::lowered(body).subrange(0, k) =~= header_prefix(name)) by {
        assert forall|j: int| 0 <= j < k implies text::lowered(body)[j] == header_prefix(name)[j] by {
            if j < name.len() {
                assert(text::lowered(body)[j] == text::lowered(written)[j]);
            }
        }
    }
}

/// Dropping a header from bytes that end with a line end, with others behind, is dropping it from
/// the one and from the other.
proof fn lemma_stripped_of_both(a: Seq<u8>, b: Seq<u8>, name: Seq<char>)
    requires
        a.len() > 0 ==> a.last() == 10,
    ensures
        stripped_rest(a + b, name) == stripped_rest(a, name) + stripped_rest(b, name),
    decreases a.len(),
{
    if a.len() == 0 {
        assert(a + b =~= b);
        assert(stripped_rest(a, name) + stripped_rest(b, name) =~= stripped_rest(b, name));
    } else {
        lemma_lf_from(a, 0);
        if lf_from(a, 0) == a.len() {
            assert(a[a.len() - 1] != 10);
        }
        lemma_line_before(a, b);
        let rest = a.skip(line_len(a));
        if rest.len() > 0 {
            assert(rest.last() == a.last());
        }
        lemma_stripped_of_both(rest, b, name);
        assert(stripped_rest(a + b, name) =~= stripped_rest(a, name) + stripped_rest(b, name));
    }
}

/// Dropping a header undoes adding a line of that header: what is left is what dropping it from the
/// message without the line leaves. Where no line of the message ends, nothing was added.
pub proof fn law_stripping_undoes_injecting(raw: Seq<u8>, line: Seq<u8>, name: Seq<char>)
    requires
        line.len() > 0,
        lf_from(line, 0) == line.len() - 1,
        is_header_line(line_body(line), name),
    ensures
        stripped(injected(raw, line), name) == stripped(raw, name),
{
    let p = crlf_from(raw, 0);
    lemma_crlf_from(raw, 0);
    if p < raw.len() {
        let a = raw.take(p + 2);
        let c = raw.skip(p + 2);
        assert(a.last() == 10);
        lemma_lf_from(a, 0);
        if lf_from(a, 0) == a.len() {
            assert(a[a.len() - 1] != 10);
        }
        let rest = a.skip(line_len(a));
        if rest.len() > 0 {
            assert(rest.last() == a.last());
        }
        assert(raw =~= a + c);
        assert(injected(raw, line) =~= a + (line + c));
        lemma_line_before(a, c);
        lemma_line_before(a, line + c);
        lemma_stripped_of_both(rest, c, name);
        lemma_stripped_of_both(rest, line + c, name);
        lemma_lf_from(line, 0);
        assert(line.last() == 10);
        lemma_stripped_of_both(line, c, name);
        assert(line.skip(line_len(line)) =~= Seq::empty());
        assert(stripped_rest(line.skip(line_len(line)), name) =~= Seq::empty());
        assert(stripped_rest(line, name) =~= Seq::empty());
        assert(stripped_rest(line + c, name) =~= stripped_rest(c, name));
    }
}

/// Dropping a header undoes adding that header, in whatever case it was written, and whatever its
/// value, as long as neither holds a line feed.
pub proof fn law_stripping_undoes_injecting_a_header(
    raw: Seq<u8>,
    name: Seq<char>,
    written: Seq<char>,
    value: Seq<char>,
)
    requires
        text::lowered(written) == text::lowered(name),
        !written.contains('\n'),
        !value.contains('\n'),
    ensures
        stripped(injected(raw, encode_utf8(header_text(written, value))), name) == stripped(
            raw,
            name,
        ),
{
    lemma_header_bytes(name, written, value);
    law_stripping_undoes_injecting(raw, encode_utf8(header_text(written, value)), name);
}

proof fn lemma_no_header_in(lines: Seq<Seq<char>>, name: Seq<char>, i: int)
    requires
        0 <= i,
        forall|k: int|
            i <= k < lines.len() ==> !text::starts_lowered(#[trigger] lines[k], header_prefix(name)),
    ensures
        header_in(lines, name, i) is None,
    decreases lines.len() - i,
{
    if i < lines.len() {
        lemma_no_header_in(lines, name, i + 1);
    }
}

/// A message from which a header was dropped has no line left that starts with that header, its
/// first line aside, and the header is no longer found in it.
pub proof fn law_stripped_header_is_gone(raw: Seq<u8>, name: Seq<char>)
    ensures
        forall|k: int|
            1 <= k < byte_lines(stripped(raw, name)).len() ==> !is_header_line(
                #[trigger] byte_lines(stripped(raw, name))[k],
                name,
            ),
        header(stripped(raw, name), name) is None,
{
    let s = stripped(raw, name);
    let lines = byte_lines(s);
    if raw.len() > 0 {
        law_stripping_drops_only_the_header(raw, name);
        let others = other_lines(byte_lines(raw).skip(1), name);
        lemma_other_lines(byte_lines(raw).skip(1), name);
        assert forall|k: int| 1 <= k < lines.len() implies !is_header_line(#[trigger] lines[k], name) by {
            assert(lines[k] == others[k - 1]);
        }
    } else {
        assert(s.len() == 0);
    }
    assert forall|k: int| 1 <= k < head_lines(s).len() implies !text::starts_lowered(
        #[trigger] head_lines(s)[k],
        header_prefix(name),
    ) by {
        assert(head_lines(s)[k] == lossy(lines[k]));
    }
    lemma_no_header_in(head_lines(s), name, 1);
}

/// Dropping a header twice is dropping it once.
pub proof fn law_stripping_twice_is_stripping_once(raw: Seq<u8>, name: Seq<char>)
    ensures
        stripped(stripped(raw, name), name) == stripped(raw, name),
{
    if raw.len() > 0 {
        lemma_lf_from(raw, 0);
        let x = raw.take(line_len(raw));
        let rest = raw.skip(line_len(raw));
        let less = stripped_rest(rest, name);
        lemma_stripped_rest(rest, name);
        if lf_from(raw, 0) == raw.len() {
            assert(rest.len() == 0);
            assert(stripped(raw, name) =~= raw);
        } else {
            lemma_line_alone(raw);
            lemma_line_before(x, less);
            assert(x.skip(line_len(x)) + less =~= less);
            assert(stripped(x + less, name) =~= x + less);
        }
    } else {
        assert(stripped(raw, name) =~= raw);
    }
}

/// Dropping a header leaves the first line of a message as it was.
pub proof fn law_stripping_keeps_first_line(raw: Seq<u8>, name: Seq<char>)
    ensures
        line_len(stripped(raw, name)) == line_len(raw),
        stripped(raw, name).take(line_len(raw)) == raw.take(line_len(raw)),
{
    lemma_lf_from(raw, 0);
    let x = raw.take(line_len(raw));
    let less = stripped_rest(raw.skip(line_len(raw)), name);
    if lf_from(raw, 0) == raw.len() {
        assert(less.len() == 0);
        assert(stripped(raw, name) =~= raw);
    } else {
        lemma_line_alone(raw);
        lemma_line_before(x, less);
    }
    assert(stripped(raw, name).take(line_len(raw)) =~= x);
}

/// Adding a header line, which ends with a line end, adds its lines behind some of the message's
/// and before the others.
pub proof fn law_injecting_adds_a_line(raw: Seq<u8>, line: Seq<u8>)
    requires
        crlf_from(raw, 0) < raw.len(),
        line.len() > 0 ==> line.last() == 10,
    ensures
        byte_lines(injected(raw, line)) == byte_lines(raw.take(crlf_from(raw, 0) + 2)) + byte_lines(
            line,
        ) + byte_lines(raw.skip(crlf_from(raw, 0) + 2)),
        byte_lines(raw) == byte_lines(raw.take(crlf_from(raw, 0) + 2)) + byte_lines(
            raw.skip(crlf_from(raw, 0) + 2),
        ),
        byte_lines(raw.take(crlf_from(raw, 0) + 2)).len() > 0,
{
    lemma_crlf_from(raw, 0);
    let p = crlf_from(raw, 0) + 2;
    let (a, c) = (raw.take(p), raw.skip(p));
    assert(a.last() == 10);
    assert(a + c =~= raw);
    lemma_lines_of_both(a, c);
    lemma_lines_of_both(a + line, c);
    lemma_lines_of_both(a, line);
}

/// Adding a header line keeps the first line of a message and all that followed it.
pub proof fn law_injecting_keeps_the_message(raw: Seq<u8>, line: Seq<u8>)
    requires
        crlf_from(raw, 0) < raw.len(),
    ensures
        injected(raw, line).len() == raw.len() + line.len(),
        injected(raw, line).take(crlf_from(raw, 0) + 2) == raw.take(crlf_from(raw, 0) + 2),
        injected(raw, line).skip(crlf_from(raw, 0) + 2 + line.len()) == raw.skip(
            crlf_from(raw, 0) + 2,
        ),
{
    lemma_crlf_from(raw, 0);
    let p = crlf_from(raw, 0);
    assert(injected(raw, line).take(p + 2) =~= raw.take(p + 2));
    assert(injected(raw, line).skip(p + 2 + line.len()) =~= raw.skip(p + 2));
}

/// A host and a port that were joined by a colon are told apart again, whatever the host holds,
/// unless it is empty or starts with a square bracket.
pub proof fn law_host_port_splits_what_was_joined(host: Seq<char>, port: u16, default: u16)
    requires
        host.len() > 0,
        host[0] != '[',
    ensures
        host_port(host + seq![':'] + text::decimal(port as nat), default) == (host, port),
{
    let tail = text::decimal(port as nat);
    let s = host + seq![':'] + tail;
    assert(s[0] == host[0]);
    text::lemma_decimal_digits(port as nat);
    text::lemma_rfind_behind(host, tail, ':', s.len() as int);
    assert(s.take(host.len() as int) =~= host);
    assert(s.skip(host.len() as int + 1) =~= tail);
    text::law_number_of_decimal(port as nat, 65535);
}

proof fn lemma_find_close(s: Seq<char>, end: int, i: int)
    requires
        1 <= i <= end,
        end + 1 < s.len(),
        s[end] == ']',
        s[end + 1] == ':',
        forall|k: int| 1 <= k < end ==> !(#[trigger] s[k] == ']' && s[k + 1] == ':'),
    ensures
        text::find_text(s, seq![']', ':'], i) == Some(end),
    decreases end - i,
{
    let pat = seq![']', ':'];
    if i < end {
        assert(s.subrange(i, i + 2)[0] == s[i]);
        assert(s.subrange(i, i + 2)[1] == s[i + 1]);
        assert(!text::has_at(s, pat, i));
        lemma_find_close(s, end, i + 1);
    } else {
        assert(s.subrange(i, i + 2) =~= pat);
    }
}

/// A host in square brackets and the port behind it are told apart again, where the host holds no
/// closing bracket with a colon behind it.
pub proof fn law_host_port_splits_bracketed_host(host: Seq<char>, port: u16, default: u16)
    requires
        forall|k: int|
            0 <= k && k + 1 < host.len() ==> !(#[trigger] host[k] == ']' && host[k + 1] == ':'),
    ensures
        host_port(seq!['['] + host + seq![']', ':'] + text::decimal(port as nat), default) == (
            host,
            port,
        ),
{
    let tail = text::decimal(port as nat);
    let s = seq!['['] + host + seq![']', ':'] + tail;
    let end = host.len() as int + 1;
    assert(s[0] == '[');
    assert(s[end] == ']' && s[end + 1] == ':');
    assert forall|k: int| 1 <= k < end implies !(#[trigger] s[k] == ']' && s[k + 1] == ':') by {
        assert(s[k] == host[k - 1]);
        if k + 1 < end {
            assert(s[k + 1] == host[k]);
        }
    }
    lemma_find_close(s, end, 1);
    assert(s.subrange(1, end) =~= host);
    assert(s.skip(end + 2) =~= tail);
    text::law_number_of_decimal(port as nat, 65535);
}

/// A text with a line end behind it is the first line of a message, as it stands; the lines behind
/// it are those of the rest.
pub proof fn law_first_line_is_read_as_it_stands(first: Seq<char>, tail: Seq<u8>)
    requires
        !first.contains('\n'),
    ensures
        head_lines(encode_utf8(first) + seq![13u8, 10u8] + tail) == seq![first] + head_lines(tail),
{
    let b = encode_utf8(first);
    let line = b + seq![13u8, 10u8];
    lemma_no_lf_byte(first);
    lemma_one_line(b);
    lemma_lines_of_both(line, tail);
    encode_utf8_valid_utf8(first);
    encode_utf8_decode_utf8(first);
    assert(head_lines(line + tail) =~= seq![first] + head_lines(tail));
}

/// Where nothing but a port stands behind the only colon, it is the port; where there is no colon,
/// the whole is the host, and the default stands for the port.
pub proof fn law_host_without_port_takes_the_default(host: Seq<char>, default: u16)
    requires
        !host.contains(':'),
        host.len() > 0 ==> host[0] != '[',
    ensures
        host_port(host, default) == (host, default),
{
    lemma_no_colon(host, host.len() as int);
}

proof fn lemma_no_colon(s: Seq<char>, i: int)
    requires
        0 <= i <= s.len(),
        !s.contains(':'),
    ensures
        text::rfind_from(s, ':', i) == 0,
    decreases i,
{
    if i > 0 {
        assert(s.contains(s[i - 1]));
        lemma_no_colon(s, i - 1);
    }
}

/// What stands behind the last colon of a host and is no port is cut off, and the default stands for
/// it.
pub proof fn law_unreadable_port_takes_the_default(host: Seq<char>, port: Seq<char>, default: u16)
    requires
        host.len() > 0,
        host[0] != '[',
        !port.contains(':'),
        text::number(port, 65535) is Err,
    ensures
        host_port(host + seq![':'] + port, default) == (host, default),
{
    let s = host + seq![':'] + port;
    assert(s[0] == host[0]);
    assert forall|k: int| 0 <= k < port.len() implies #[trigger] port[k] != ':' by {
        assert(port.contains(port[k]));
    }
    text::lemma_rfind_behind(host, port, ':', s.len() as int);
    assert(s.take(host.len() as int) =~= host);
    assert(s.skip(host.len() as int + 1) =~= port);
}

/// A host in square brackets without a port takes the default.
pub proof fn law_bracketed_host_without_port_takes_the_default(host: Seq<char>, default: u16)
    requires
        !host.contains(']'),
    ensures
        host_port(seq!['['] + host + seq![']'], default) == (host, default),
{
    let s = seq!['['] + host + seq![']'];
    lemma_no_close(s, host, 1);
    assert(s.last() == ']');
    assert(s.subrange(1, s.len() - 1) =~= host);
}

proof fn lemma_no_close(s: Seq<char>, host: Seq<char>, i: int)
    requires
        s == seq!['['] + host + seq![']'],
        !host.contains(']'),
        1 <= i <= s.len() + 1,
    ensures
        text::find_text(s, seq![']', ':'], i) is None,
    decreases s.len() + 1 - i,
{
    let pat = seq![']', ':'];
    if i <= s.len() {
        if text::has_at(s, pat, i) {
            assert(s.subrange(i, i + 2)[0] == pat[0]);
            assert(s[i] == ']');
            assert(s[i] == host[i - 1]);
            assert(host.contains(host[i - 1]));
        }
        lemma_no_close(s, host, i + 1);
    }
}

/// Whether a text is one word: not empty, and without white space.
pub open spec fn is_word(s: Seq<char>) -> bool {
    s.len() > 0 && forall|k: int| 0 <= k < s.len() ==> !text::is_white(#[trigger] s[k])
}

proof fn lemma_words_have_no_line_feed(s: Seq<char>)
    requires
        forall|k: int| 0 <= k < s.len() ==> !text::is_white(#[trigger] s[k]),
    ensures
        !s.contains('\n'),
{
    if s.contains('\n') {
        let k = choose|k: int| 0 <= k < s.len() && s[k] == '\n';
        assert(text::is_white(s[k]));
    }
}

proof fn lemma_both_lack(a: Seq<char>, b: Seq<char>, c: char)
    requires
        !a.contains(c),
        !b.contains(c),
    ensures
        !(a + b).contains(c),
{
    if (a + b).contains(c) {
        let k = choose|k: int| 0 <= k < (a + b).len() && (a + b)[k] == c;
        if k < a.len() {
            assert(a[k] == c);
        } else {
            assert(b[k - a.len()] == c);
        }
    }
}

/// A request line with what follows it: a method, a target and a version with blanks between.
pub open spec fn request_bytes(
    method: Seq<char>,
    target: Seq<char>,
    version: Seq<char>,
    tail: Seq<u8>,
) -> Seq<u8> {
    encode_utf8(method + (seq![' '] + (target + (seq![' '] + version)))) + seq![13u8, 10u8] + tail
}

proof fn lemma_request_words(
    method: Seq<char>,
    target: Seq<char>,
    version: Seq<char>,
    tail: Seq<u8>,
)
    requires
        is_word(method),
        is_word(target),
        is_word(version),
    ensures
        ({
            let lines = head_lines(request_bytes(method, target, version, tail));
            &&& lines.len() > 0
            &&& text::words(lines[0]) == seq![method, target, version]
        }),
{
    let rest = target + (seq![' '] + version);
    let first = method + (seq![' '] + rest);
    lemma_words_have_no_line_feed(method);
    lemma_words_have_no_line_feed(target);
    lemma_words_have_no_line_feed(version);
    let blank = seq![' '];
    assert(!blank.contains('\n'));
    lemma_both_lack(blank, version, '\n');
    lemma_both_lack(target, blank + version, '\n');
    lemma_both_lack(blank, rest, '\n');
    lemma_both_lack(method, blank + rest, '\n');
    law_first_line_is_read_as_it_stands(first, tail);
    assert(head_lines(request_bytes(method, target, version, tail))[0] == first);
    text::law_words_are_parted_by_white_space(method, ' ', rest);
    text::law_words_are_parted_by_white_space(target, ' ', version);
    text::law_words_are_parted_by_white_space(version, ' ', Seq::empty());
    assert(text::words(first) =~= seq![method, target, version]);
}

/// Whether a text can stand for a host as it is: it holds no colon, slash, bracket or white space.
pub open spec fn is_plain_host(s: Seq<char>) -> bool {
    forall|k: int|
        0 <= k < s.len() ==> #[trigger] s[k] != ':' && s[k] != '/' && s[k] != '[' && s[k] != ']'
            && !text::is_white(s[k])
}

proof fn lemma_slash_at(at: Seq<char>, path: Seq<char>, i: int)
    requires
        0 <= i <= at.len(),
        forall|k: int| 0 <= k < at.len() ==> #[trigger] at[k] != '/',
        path.len() > 0 ==> path[0] == '/',
    ensures
        text::find_from(at + path, '/', i) == at.len(),
    decreases at.len() - i,
{
    let s = at + path;
    if i < at.len() {
        assert(s[i] == at[i]);
        lemma_slash_at(at, path, i + 1);
    } else if path.len() > 0 {
        assert(s[i] == path[0]);
    }
}

/// A request other than `CONNECT` for a target of the form `http://` + host + path is forwarded, as
/// it stands, to that host: on port 80 where none is named, else on the port behind the host.
pub proof fn law_absolute_target_names_host_and_port(
    method: Seq<char>,
    host: Seq<char>,
    port: Option<u16>,
    path: Seq<char>,
    version: Seq<char>,
    tail: Seq<u8>,
)
    requires
        is_word(method),
        text::lowered(method) != "connect"@,
        is_plain_host(host),
        port is Some ==> host.len() > 0,
        path.len() > 0 ==> path[0] == '/',
        forall|k: int| 0 <= k < path.len() ==> !text::is_white(#[trigger] path[k]),
        is_word(version),
    ensures
        ({
            let at = match port {
                Some(n) => host + seq![':'] + text::decimal(n as nat),
                None => host,
            };
            let target = "http://"@ + at + path;
            let raw = request_bytes(method, target, version, tail);
            &&& request_of(raw) matches Some(r)
            &&& r.host == host
            &&& r.port == (match port {
                Some(n) => n,
                None => 80u16,
            })
            &&& r.scheme == Scheme::Http
            &&& r.frontend == Frontend::HttpForward
            &&& r.raw == raw
            &&& r.path == target
        }),
{
    let at = match port {
        Some(n) => host + seq![':'] + text::decimal(n as nat),
        None => host,
    };
    reveal_strlit("http://");
    reveal_strlit("connect");
    reveal_strlit("CONNECT");
    assert(text::lowered("CONNECT"@) =~= "connect"@);
    let target = "http://"@ + at + path;
    assert(!host.contains(':')) by {
        if host.contains(':') {
            let k = choose|k: int| 0 <= k < host.len() && host[k] == ':';
            assert(host[k] == ':');
        }
    }
    if let Some(n) = port {
        text::lemma_decimal_digits(n as nat);
    }
    assert forall|k: int| 0 <= k < at.len() implies #[trigger] at[k] != '/' && !text::is_white(at[k]) by {
        if k < host.len() {
            assert(at[k] == host[k]);
        } else if k > host.len() {
            assert(at[k] == text::decimal(port->0 as nat)[k - host.len() - 1]);
            assert(text::is_digit(at[k]));
        }
    }
    assert forall|k: int| 0 <= k < target.len() implies !text::is_white(#[trigger] target[k]) by {
        if k >= 7 {
            if k < 7 + at.len() {
                assert(target[k] == at[k - 7]);
            } else {
                assert(target[k] == path[k - 7 - at.len()]);
            }
        }
    }
    lemma_request_words(method, target, version, tail);
    assert(target.subrange(0, 7) =~= "http://"@);
    assert(target.skip(7) =~= at + path);
    lemma_slash_at(at, path, 0);
    assert((at + path).take(at.len() as int) =~= at);
    match port {
        Some(n) => {
            assert(host[0] != '[');
            law_host_port_splits_what_was_joined(host, n, 80);
        },
        None => {
            law_host_without_port_takes_the_default(host, 80);
        },
    }
}

/// A `CONNECT` request, in whatever case, asks for a tunnel to the host it names, on port 443 where
/// none is named, else on the port behind the host. Nothing of it is forwarded.
pub proof fn law_connect_asks_for_a_tunnel(
    method: Seq<char>,
    host: Seq<char>,
    port: Option<u16>,
    version: Seq<char>,
    tail: Seq<u8>,
)
    requires
        text::lowered(method) == "connect"@,
        is_plain_host(host),
        host.len() > 0,
        is_word(version),
    ensures
        ({
            let target = match port {
                Some(n) => host + seq![':'] + text::decimal(n as nat),
                None => host,
            };
            &&& request_of(request_bytes(method, target, version, tail)) matches Some(r)
            &&& r.host == host
            &&& r.port == (match port {
                Some(n) => n,
                None => 443u16,
            })
            &&& r.scheme == Scheme::Https
            &&& r.frontend == Frontend::HttpConnect
            &&& r.raw == Seq::<u8>::empty()
            &&& r.path == target
        }),
{
    let target = match port {
        Some(n) => host + seq![':'] + text::decimal(n as nat),
        None => host,
    };
    reveal_strlit("connect");
    reveal_strlit("CONNECT");
    assert(text::lowered("CONNECT"@) =~= "connect"@);
    assert(text::lowered(method).len() == method.len());
    assert forall|k: int| 0 <= k < method.len() implies !text::is_white(#[trigger] method[k]) by {
        assert(text::lowered(method)[k] == text::lower(method[k]));
        assert(text::lowered(method)[k] == "connect"@[k]);
    }
    assert(!host.contains(':')) by {
        if host.contains(':') {
            let k = choose|k: int| 0 <= k < host.len() && host[k] == ':';
            assert(host[k] == ':');
        }
    }
    if let Some(n) = port {
        text::lemma_decimal_digits(n as nat);
    }
    assert forall|k: int| 0 <= k < target.len() implies !text::is_white(#[trigger] target[k]) by {
        if k < host.len() {
            assert(target[k] == host[k]);
        } else if k > host.len() {
            assert(target[k] == text::decimal(port->0 as nat)[k - host.len() - 1]);
            assert(text::is_digit(target[k]));
        }
    }
    lemma_request_words(method, target, version, tail);
    assert(host[0] != '[');
    match port {
        Some(n) => {
            law_host_port_splits_what_was_joined(host, n, 443);
        },
        None => {
            law_host_without_port_takes_the_default(host, 443);
        },
    }
}

/// A request other than `CONNECT` for a target that is not absolute is forwarded to the host of its
/// `Host` header, on port 80 unless that names one; without that header it is no request.
pub proof fn law_relative_target_goes_by_its_host_header(
    method: Seq<char>,
    target: Seq<char>,
    version: Seq<char>,
    tail: Seq<u8>,
    host: Seq<char>,
    port: Option<u16>,
)
    requires
        is_word(method),
        text::lowered(method) != "connect"@,
        is_word(target),
        !"http://"@.is_prefix_of(target),
        is_word(version),
        is_plain_host(host),
        port is Some ==> host.len() > 0,
    ensures
        ({
            let raw = request_bytes(method, target, version, tail);
            let at = match port {
                Some(n) => host + seq![':'] + text::decimal(n as nat),
                None => host,
            };
            &&& header(raw, "Host"@) is None ==> request_of(raw) is None
            &&& header(raw, "Host"@) == Some(at) ==> (request_of(raw) matches Some(r) && r.host == host
                && r.port == (match port {
                Some(n) => n,
                None => 80u16,
            }) && r.scheme == Scheme::Http && r.frontend == Frontend::HttpForward && r.raw == raw
                && r.path == target)
        }),
{
    reveal_strlit("http://");
    reveal_strlit("connect");
    reveal_strlit("CONNECT");
    assert(text::lowered("CONNECT"@) =~= "connect"@);
    lemma_request_words(method, target, version, tail);
    if text::has_at(target, "http://"@, 0) {
        assert("http://"@.is_prefix_of(target));
    }
    assert(!host.contains(':')) by {
        if host.contains(':') {
            let k = choose|k: int| 0 <= k < host.len() && host[k] == ':';
            assert(host[k] == ':');
        }
    }
    match port {
        Some(n) => {
            assert(host[0] != '[');
            law_host_port_splits_what_was_joined(host, n, 80);
        },
        None => {
            law_host_without_port_takes_the_default(host, 80);
        },
    }
}

/// What a client shows to be let in is the value of its `Proxy-Authorization` header, whatever it
/// asks for; a message whose first line lacks a target is no request.
pub proof fn law_login_of_a_request_is_its_header(raw: Seq<u8>)
    ensures
        request_of(raw) matches Some(r) ==> r.proxy_auth == header(raw, "Proxy-Authorization"@),
        head_lines(raw).len() == 0 ==> request_of(raw) is None,
        head_lines(raw).len() > 0 && text::words(head_lines(raw)[0]).len() < 2 ==> request_of(raw)
            is None,
{
}

/// A header is found by its name, in whatever case, and its value is what stands behind the colon
/// without white space around it. Only the first line of a message is passed over.
pub proof fn law_header_is_found_by_its_name(
    first: Seq<char>,
    name: Seq<char>,
    written: Seq<char>,
    value: Seq<char>,
    tail: Seq<u8>,
)
    requires
        !first.contains('\n'),
        text::lowered(written) == text::lowered(name),
        !written.contains('\n'),
        !value.contains('\n'),
    ensures
        header(
            encode_utf8(first) + seq![13u8, 10u8] + (encode_utf8(
                written + seq![':'] + value,
            ) + seq![13u8, 10u8] + tail),
            name,
        ) == Some(text::trimmed(value)),
{
    let line = written + seq![':'] + value;
    let colon = seq![':'];
    assert(!colon.contains('\n'));
    lemma_both_lack(written, colon, '\n');
    lemma_both_lack(written + colon, value, '\n');
    let rest = encode_utf8(line) + seq![13u8, 10u8] + tail;
    let raw = encode_utf8(first) + seq![13u8, 10u8] + rest;
    law_first_line_is_read_as_it_stands(first, rest);
    law_first_line_is_read_as_it_stands(line, tail);
    let lines = head_lines(raw);
    assert(lines[1] == line);
    let k = name.len() as int + 1;
    assert(text::lowered(written).len() == written.len());
    assert(text::lowered(name).len() == name.len());
    assert(text::lowered(line).subrange(0, k) =~= header_prefix(name)) by {
        assert forall|j: int| 0 <= j < k implies text::lowered(line)[j] == header_prefix(name)[j] by {
            if j < name.len() {
                assert(text::lowered(line)[j] == text::lowered(written)[j]);
            }
        }
    }
    assert(line.skip(k) =~= value);
}

/// A line of another header is passed over: it does not change which value is found. A message with
/// no line behind its first has no header.
pub proof fn law_other_headers_are_passed_over(
    first: Seq<char>,
    name: Seq<char>,
    other: Seq<char>,
    value: Seq<char>,
    tail: Seq<u8>,
)
    requires
        !first.contains('\n'),
        text::lowered(other) != text::lowered(name),
        !other.contains(':'),
        !name.contains(':'),
        !other.contains('\n'),
        !value.contains('\n'),
    ensures
        header(
            encode_utf8(first) + seq![13u8, 10u8] + (encode_utf8(
                other + seq![':'] + value,
            ) + seq![13u8, 10u8] + tail),
            name,
        ) == header(encode_utf8(first) + seq![13u8, 10u8] + tail, name),
        header(encode_utf8(first) + seq![13u8, 10u8] + Seq::<u8>::empty(), name) is None,
{
    let line = other + seq![':'] + value;
    let colon = seq![':'];
    assert(!colon.contains('\n'));
    lemma_both_lack(other, colon, '\n');
    lemma_both_lack(other + colon, value, '\n');
    let rest = encode_utf8(line) + seq![13u8, 10u8] + tail;
    law_first_line_is_read_as_it_stands(first, rest);
    law_first_line_is_read_as_it_stands(line, tail);
    law_first_line_is_read_as_it_stands(first, tail);
    law_first_line_is_read_as_it_stands(first, Seq::empty());
    let lines = seq![first] + (seq![line] + head_lines(tail));
    let less = seq![first] + head_lines(tail);
    lemma_other_is_no_match(other, value, name);
    assert(lines[1] == line);
    assert(head_lines(Seq::<u8>::empty()).len() == 0);
    lemma_header_in_shift(lines, less, name, 1);
}

proof fn lemma_other_is_no_match(other: Seq<char>, value: Seq<char>, name: Seq<char>)
    requires
        text::lowered(other) != text::lowered(name),
        !other.contains(':'),
        !name.contains(':'),
    ensures
        !text::starts_lowered(other + seq![':'] + value, header_prefix(name)),
{
    let line = other + seq![':'] + value;
    let low = text::lowered(line);
    let prefix = header_prefix(name);
    assert(text::lowered(name).len() == name.len());
    assert(text::lowered(other).len() == other.len());
    if text::has_at(low, prefix, 0) {
        let n = name.len() as int;
        let m = other.len() as int;
        assert forall|j: int| 0 <= j <= n implies #[trigger] low[j] == prefix[j] by {
            assert(low.subrange(0, n + 1)[j] == prefix[j]);
        }
        if m < n {
            assert(low[m] == ':');
            assert(prefix[m] == text::lowered(name)[m]);
            assert(text::lower(name[m]) == ':');
            assert(name[m] == ':');
            assert(name.contains(':'));
        } else if m > n {
            assert(prefix[n] == ':');
            assert(low[n] == text::lower(other[n]));
            assert(other[n] == ':');
            assert(other.contains(':'));
        } else {
            assert forall|j: int| 0 <= j < n implies text::lowered(other)[j] == text::lowered(name)[j] by {
                assert(low[j] == text::lower(other[j]));
                assert(low[j] == prefix[j]);
            }
            assert(text::lowered(other) =~= text::lowered(name));
        }
    }
}

proof fn lemma_header_in_shift(lines: Seq<Seq<char>>, less: Seq<Seq<char>>, name: Seq<char>, i: int)
    requires
        lines.len() == less.len() + 1,
        forall|k: int| 1 <= k < less.len() ==> #[trigger] less[k] == lines[k + 1],
        1 <= i,
    ensures
        header_in(lines, name, i + 1) == header_in(less, name, i),
    decreases less.len() - i,
{
    if i < less.len() {
        assert(less[i] == lines[i + 1]);
        lemma_header_in_shift(lines, less, name, i + 1);
    }
}

/// A request says that a body follows by the header for chunks, or by a length that is not nought or
/// cannot be read; with neither header there is no body.
pub proof fn law_body_is_told_by_its_headers(raw: Seq<u8>, n: nat)
    ensures
        header(raw, "Transfer-Encoding"@) is Some ==> declares_body(raw),
        header(raw, "Transfer-Encoding"@) is None && header(raw, "Content-Length"@) is None
            ==> !declares_body(raw),
        header(raw, "Transfer-Encoding"@) is None && header(raw, "Content-Length"@) == Some(
            text::decimal(n),
        ) ==> declares_body(raw) == (n != 0),
        header(raw, "Transfer-Encoding"@) is None && (header(raw, "Content-Length"@) matches Some(v)
            && text::number(text::trimmed(v), u64::MAX as nat) is Err) ==> declares_body(raw),
{
    let v = text::decimal(n);
    text::lemma_decimal_digits(n);
    assert(text::is_digit(v[0]) && text::is_digit(v.last()));
    text::law_trimming_takes_white_space_off_the_ends(Seq::empty(), v, Seq::empty());
    assert(Seq::<char>::empty() + v + Seq::<char>::empty() =~= v);
    if n <= u64::MAX {
        text::law_number_of_decimal(n, u64::MAX as nat);
    } else {
        text::law_number_past_its_bound_is_refused(n, u64::MAX as nat);
    }
}

/// The status of a response is the number behind the version in its first line, whatever words
/// follow.
pub proof fn law_status_is_the_number_behind_the_version(
    version: Seq<char>,
    code: u16,
    c: char,
    rest: Seq<char>,
)
    requires
        is_word(version),
        text::is_white(c),
    ensures
        status_of(
            encode_utf8(version + (seq![' '] + (text::decimal(code as nat) + (seq![c] + rest)))),
        ) == code,
        status_of(encode_utf8(version + (seq![' '] + text::decimal(code as nat)))) == code,
{
    let d = text::decimal(code as nat);
    text::lemma_decimal_digits(code as nat);
    assert forall|k: int| 0 <= k < d.len() implies !text::is_white(#[trigger] d[k]) by {
        assert(text::is_digit(d[k]));
    }
    text::law_words_are_parted_by_white_space(version, ' ', d + (seq![c] + rest));
    text::law_words_are_parted_by_white_space(d, c, rest);
    text::law_words_are_parted_by_white_space(version, ' ', d);
    text::law_number_of_decimal(code as nat, 65535);
    let long = version + (seq![' '] + (d + (seq![c] + rest)));
    let short = version + (seq![' '] + d);
    encode_utf8_valid_utf8(long);
    encode_utf8_decode_utf8(long);
    encode_utf8_valid_utf8(short);
    encode_utf8_decode_utf8(short);
    assert(text::words(long)[1] == d);
    assert(text::words(short)[1] == d);
}

/// A first line without a second word, or with one that is no number, or that is no text, has no
/// status.
pub proof fn law_unreadable_status_is_nought(head: Seq<u8>)
    ensures
        !valid_utf8(head) ==> status_of(head) == 0,
        valid_utf8(head) && text::words(decode_utf8(head)).len() < 2 ==> status_of(head) == 0,
        valid_utf8(head) && text::words(decode_utf8(head)).len() >= 2 && text::number(
            text::words(decode_utf8(head))[1],
            65535,
        ) is Err ==> status_of(head) == 0,
{
}

proof fn lemma_crlf_at(b: Seq<u8>, i: int, p: int)
    requires
        0 <= i <= p,
        p + 1 < b.len(),
        b[p] == 13,
        b[p + 1] == 10,
        forall|j: int| i <= j < p ==> !(#[trigger] b[j] == 13 && b[j + 1] == 10),
    ensures
        crlf_from(b, i) == p,
    decreases p - i,
{
    if i < p {
        lemma_crlf_at(b, i + 1, p);
    }
}

/// A line is added right behind the first carriage return and line feed of a message, and nowhere
/// else.
pub proof fn law_line_is_added_behind_the_first_line_end(raw: Seq<u8>, line: Seq<u8>, cut: int)
    requires
        2 <= cut <= raw.len(),
        raw[cut - 2] == 13,
        raw[cut - 1] == 10,
        forall|j: int| 0 <= j < cut - 2 ==> !(#[trigger] raw[j] == 13 && raw[j + 1] == 10),
    ensures
        injected(raw, line) == raw.take(cut) + line + raw.skip(cut),
{
    lemma_crlf_at(raw, 0, cut - 2);
}

proof fn lemma_no_crlf(b: Seq<u8>, i: int)
    requires
        0 <= i,
        forall|j: int| 0 <= j && j + 1 < b.len() ==> !(#[trigger] b[j] == 13 && b[j + 1] == 10),
    ensures
        crlf_from(b, i) == b.len(),
    decreases b.len() - i,
{
    if i + 1 < b.len() {
        lemma_no_crlf(b, i + 1);
    }
}

/// A message in which no carriage return stands before a line feed stays as it is.
pub proof fn law_nothing_is_added_without_a_line_end(raw: Seq<u8>, line: Seq<u8>)
    requires
        forall|j: int| 0 <= j && j + 1 < raw.len() ==> !(#[trigger] raw[j] == 13 && raw[j + 1] == 10),
    ensures
        injected(raw, line) == raw,
{
    lemma_no_crlf(raw, 0);
}

/// A line feed alone ends a line as well: the text before it is read as it stands.
pub proof fn law_line_feed_alone_ends_a_line(first: Seq<char>, tail: Seq<u8>)
    requires
        !first.contains('\n'),
        encode_utf8(first).len() > 0 ==> encode_utf8(first).last() != 13,
    ensures
        head_lines(encode_utf8(first) + seq![10u8] + tail) == seq![first] + head_lines(tail),
{
    let b = encode_utf8(first);
    let line = b + seq![10u8];
    lemma_no_lf_byte(first);
    assert forall|j: int| 0 <= j < b.len() implies #[trigger] line[j] != 10 by {
        assert(line[j] == b[j]);
    }
    lemma_lf_at(line, 0, b.len() as int);
    assert(line_body(line) =~= b);
    assert(byte_lines(line.skip(line_len(line))) =~= Seq::empty());
    assert(byte_lines(line) =~= seq![b]);
    lemma_lines_of_both(line, tail);
    encode_utf8_valid_utf8(first);
    encode_utf8_decode_utf8(first);
    assert(head_lines(line + tail) =~= seq![first] + head_lines(tail));
}

/// What begins with its only colon names no host to part from a port: the whole is the host, and the
/// default stands for the port.
pub proof fn law_port_without_host_is_the_host(port: Seq<char>, default: u16)
    requires
        !port.contains(':'),
    ensures
        host_port(seq![':'] + port, default) == (seq![':'] + port, default),
{
    let s = seq![':'] + port;
    assert forall|k: int| 0 <= k < port.len() implies #[trigger] port[k] != ':' by {
        assert(port.contains(port[k]));
    }
    assert(Seq::<char>::empty() + seq![':'] + port =~= s);
    text::lemma_rfind_behind(Seq::empty(), port, ':', s.len() as int);
    assert(s[0] == ':');
}

/// A request is read by the first two words of its first line, whatever follows them: a tunnel to
/// the target of `CONNECT`, anything else forwarded to the host in an absolute target or in the
/// `Host` header. Each may name a port; `443` stands for that of a tunnel and `80` for any other.
pub proof fn law_request_is_read_by_its_first_two_words(
    first: Seq<char>,
    tail: Seq<u8>,
    at: Seq<char>,
    path: Seq<char>,
    host: Seq<char>,
)
    requires
        !first.contains('\n'),
        text::words(first).len() >= 2,
        !at.contains('/'),
        path.len() > 0 ==> path[0] == '/',
    ensures
        ({
            let raw = encode_utf8(first) + seq![13u8, 10u8] + tail;
            let (method, target) = (text::words(first)[0], text::words(first)[1]);
            let connect = text::lowered(method) == "connect"@;
            let r = request_of(raw);
            &&& connect ==> r is Some && (r->0.host, r->0.port) == host_port(target, 443)
                && r->0.frontend == Frontend::HttpConnect && r->0.scheme == Scheme::Https
                && r->0.raw.len() == 0
            &&& !connect && target == "http://"@ + at + path ==> r is Some && (
                r->0.host,
                r->0.port,
            ) == host_port(at, 80)
            &&& !connect && !"http://"@.is_prefix_of(target) && header(raw, "Host"@) == Some(host)
                ==> r is Some && (r->0.host, r->0.port) == host_port(host, 80)
            &&& !connect && !"http://"@.is_prefix_of(target) && header(raw, "Host"@) is None ==> r
                is None
            &&& !connect && r is Some ==> r->0.frontend == Frontend::HttpForward && r->0.scheme
                == Scheme::Http && r->0.raw == raw
            &&& r is Some ==> r->0.path == target && r->0.proxy_auth == header(
                raw,
                "Proxy-Authorization"@,
            )
        }),
{
    law_first_line_is_read_as_it_stands(first, tail);
    let raw = encode_utf8(first) + seq![13u8, 10u8] + tail;
    assert(head_lines(raw)[0] == first);
    reveal_strlit("http://");
    reveal_strlit("connect");
    reveal_strlit("CONNECT");
    assert(text::lowered("CONNECT"@) =~= "connect"@);
    let target = text::words(first)[1];
    if text::has_at(target, "http://"@, 0) {
        assert("http://"@.is_prefix_of(target));
    }
    let absolute = "http://"@ + at + path;
    assert(absolute.subrange(0, 7) =~= "http://"@);
    assert(absolute.skip(7) =~= at + path);
    assert forall|k: int| 0 <= k < at.len() implies #[trigger] at[k] != '/' by {
        assert(at.contains(at[k]));
    }
    lemma_slash_at(at, path, 0);
    assert((at + path).take(at.len() as int) =~= at);
}

} // verus!

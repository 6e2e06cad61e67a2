//! Text as sequences of characters: searching, cutting, trimming and numbers in decimal.
use vstd::prelude::*;
use vstd::string::*;
use vstd::utf8::*;

verus! {

broadcast use vstd::seq_lib::group_seq_properties;

/// `String::push` appends the given character to the end of the string.
pub assume_specification[ String::push ](s: &mut String, c: char)
    ensures
        final(s)@ == old(s)@.push(c),
;

/// The characters of a string, one by one.
pub fn chars_of(s: &str) -> (out: Vec<char>)
    ensures
        out@ == s@,
{
    let mut out: Vec<char> = Vec::new();
    for c in it: s.chars()
        invariant
            it.seq() == s@,
            out@ == s@.take(it.index()),
    {
        out.push(c);
    }
    out
}

/// The string made of `chars[from..to]`.
pub fn string_of(chars: &Vec<char>, from: usize, to: usize) -> (out: String)
    requires
        from <= to <= chars@.len(),
    ensures
        out@ == chars@.subrange(from as int, to as int),
{
    let mut out = String::new();
    let mut i: usize = from;
    while i < to
        invariant
            from <= i <= to <= chars@.len(),
            out@ == chars@.subrange(from as int, i as int),
        decreases to - i,
    {
        out.push(chars[i]);
        i += 1;
    }
    out
}

/// Whether two texts are the same.
pub fn same_text(a: &str, b: &str) -> (same: bool)
    ensures
        same == (a@ == b@),
{
    let x = a.to_owned();
    let y = b.to_owned();
    x == y
}

/// The ASCII lower case of a character; every other character stays.
pub open spec fn lower(c: char) -> char {
    if 'A' <= c <= 'Z' {
        (c as u32 + 32) as char
    } else {
        c
    }
}

/// The ASCII lower case of a text.
pub open spec fn lowered(s: Seq<char>) -> Seq<char> {
    s.map_values(|c: char| lower(c))
}

/// The ASCII lower case of a character.
pub fn lower_char(c: char) -> (out: char)
    ensures
        out == lower(c),
{
    if 'A' <= c && c <= 'Z' {
        (c as u8 + 32) as char
    } else {
        c
    }
}

/// Whether `a` and `b` are the same up to the case of ASCII letters.
pub fn same_ignoring_case(a: &str, b: &str) -> (same: bool)
    ensures
        same == (lowered(a@) == lowered(b@)),
{
    let x = chars_of(a);
    let y = chars_of(b);
    if x.len() != y.len() {
        assert(lowered(a@).len() != lowered(b@).len());
        return false;
    }
    let mut i: usize = 0;
    while i < x.len()
        invariant
            i <= x@.len(),
            x@.len() == y@.len(),
            x@ == a@,
            y@ == b@,
            forall|j: int| 0 <= j < i ==> lower(#[trigger] x@[j]) == lower(y@[j]),
        decreases x@.len() - i,
    {
        if lower_char(x[i]) != lower_char(y[i]) {
            assert(lowered(x@)[i as int] != lowered(y@)[i as int]);
            return false;
        }
        i += 1;
    }
    assert(lowered(x@) =~= lowered(y@));
    true
}

/// The Unicode white space characters.
pub open spec fn is_white(c: char) -> bool {
    ||| '\t' <= c <= '\r'
    ||| c == ' '
    ||| c == '\u{85}'
    ||| c == '\u{A0}'
    ||| c == '\u{1680}'
    ||| '\u{2000}' <= c <= '\u{200A}'
    ||| c == '\u{2028}'
    ||| c == '\u{2029}'
    ||| c == '\u{202F}'
    ||| c == '\u{205F}'
    ||| c == '\u{3000}'
}

/// Whether a character is white space.
pub fn white(c: char) -> (out: bool)
    ensures
        out == is_white(c),
{
    ('\t' <= c && c <= '\r') || c == ' ' || c == '\u{85}' || c == '\u{A0}' || c == '\u{1680}' || (
    '\u{2000}' <= c && c <= '\u{200A}') || c == '\u{2028}' || c == '\u{2029}' || c == '\u{202F}'
        || c == '\u{205F}' || c == '\u{3000}'
}

/// The position of the first `c` at or after `i`; the length where there is none.
pub open spec fn find_from(s: Seq<char>, c: char, i: int) -> int
    decreases s.len() - i,
{
    if i < 0 || i >= s.len() {
        s.len() as int
    } else if s[i] == c {
        i
    } else {
        find_from(s, c, i + 1)
    }
}

/// What `find_from` returns: the first place of `c`, with no `c` before it.
pub proof fn lemma_find_from(s: Seq<char>, c: char, i: int)
    requires
        0 <= i <= s.len(),
    ensures
        i <= find_from(s, c, i) <= s.len(),
        forall|j: int| i <= j < find_from(s, c, i) ==> #[trigger] s[j] != c,
        find_from(s, c, i) < s.len() ==> s[find_from(s, c, i)] == c,
    decreases s.len() - i,
{
    if i < s.len() && s[i] != c {
        lemma_find_from(s, c, i + 1);
    }
}

/// Searching behind the first `k` characters finds the same place.
pub proof fn lemma_find_shift(s: Seq<char>, c: char, k: int, i: int)
    requires
        0 <= k <= i <= s.len(),
    ensures
        find_from(s.skip(k), c, i - k) == find_from(s, c, i) - k,
    decreases s.len() - i,
{
    if i < s.len() {
        assert(s.skip(k)[i - k] == s[i]);
        if s[i] != c {
            lemma_find_shift(s, c, k, i + 1);
        }
    }
}

/// The position of the first `c` at or after `from`; the length where there is none.
pub fn find_char(s: &Vec<char>, c: char, from: usize) -> (at: usize)
    requires
        from <= s@.len(),
    ensures
        at == find_from(s@, c, from as int),
        from <= at <= s@.len(),
        at < s@.len() ==> s@[at as int] == c,
{
    let mut i: usize = from;
    while i < s.len()
        invariant
            from <= i <= s@.len(),
            find_from(s@, c, from as int) == find_from(s@, c, i as int),
        decreases s@.len() - i,
    {
        if s[i] == c {
            return i;
        }
        i += 1;
    }
    i
}

/// The position just behind the last `c` below `i`, counted so that nought means none.
pub open spec fn rfind_from(s: Seq<char>, c: char, i: int) -> int
    decreases i,
{
    if i <= 0 || i > s.len() {
        0
    } else if s[i - 1] == c {
        i
    } else {
        rfind_from(s, c, i - 1)
    }
}

/// The last `c` of two texts with a `c` between, where the second holds none.
pub proof fn lemma_rfind_behind(a: Seq<char>, b: Seq<char>, c: char, i: int)
    requires
        a.len() < i <= a.len() + 1 + b.len(),
        forall|k: int| 0 <= k < b.len() ==> #[trigger] b[k] != c,
    ensures
        rfind_from(a + seq![c] + b, c, i) == a.len() + 1,
    decreases i,
{
    let s = a + seq![c] + b;
    if i > a.len() + 1 {
        assert(s[i - 1] == b[i - 1 - a.len() - 1]);
        lemma_rfind_behind(a, b, c, i - 1);
    } else {
        assert(s[i - 1] == c);
    }
}

/// The position just behind the last `c`; nought where there is none.
pub fn rfind_char(s: &Vec<char>, c: char) -> (behind: usize)
    ensures
        behind == rfind_from(s@, c, s@.len() as int),
        behind <= s@.len(),
        behind > 0 ==> s@[behind - 1] == c,
{
    let mut i: usize = s.len();
    while i > 0
        invariant
            i <= s@.len(),
            rfind_from(s@, c, s@.len() as int) == rfind_from(s@, c, i as int),
        decreases i,
    {
        if s[i - 1] == c {
            return i;
        }
        i -= 1;
    }
    0
}

/// Whether `s` holds `pat` at position `i`.
pub open spec fn has_at(s: Seq<char>, pat: Seq<char>, i: int) -> bool {
    &&& 0 <= i
    &&& i + pat.len() <= s.len()
    &&& s.subrange(i, i + pat.len()) == pat
}

/// Whether `s` holds `pat` at position `at`.
pub fn holds_at(s: &Vec<char>, pat: &Vec<char>, at: usize) -> (yes: bool)
    requires
        at <= s@.len(),
    ensures
        yes == has_at(s@, pat@, at as int),
{
    if pat.len() > s.len() - at {
        return false;
    }
    let mut i: usize = 0;
    while i < pat.len()
        invariant
            i <= pat@.len(),
            at + pat@.len() <= s@.len() == s.len(),
            forall|j: int| 0 <= j < i ==> s@[at + j] == #[trigger] pat@[j],
        decreases pat@.len() - i,
    {
        if s[at + i] != pat[i] {
            assert(s@.subrange(at as int, at + pat@.len())[i as int] != pat@[i as int]);
            return false;
        }
        i += 1;
    }
    assert(s@.subrange(at as int, at + pat@.len()) =~= pat@);
    true
}

/// Whether `s` starts with `prefix`, up to the case of ASCII letters in `s`.
pub open spec fn starts_lowered(s: Seq<char>, prefix: Seq<char>) -> bool {
    has_at(lowered(s), prefix, 0)
}

/// The first position at or after `i` whose character is not white space; the length where all
/// are.
pub open spec fn skip_white(s: Seq<char>, i: int) -> int
    decreases s.len() - i,
{
    if i < 0 || i >= s.len() {
        s.len() as int
    } else if !is_white(s[i]) {
        i
    } else {
        skip_white(s, i + 1)
    }
}

/// The first position at or after `i` whose character is white space; the length where none is.
pub open spec fn find_white(s: Seq<char>, i: int) -> int
    decreases s.len() - i,
{
    if i < 0 || i >= s.len() {
        s.len() as int
    } else if is_white(s[i]) {
        i
    } else {
        find_white(s, i + 1)
    }
}

/// The position behind the last character below `i` that is not white space; nought where all
/// are white.
pub open spec fn last_black(s: Seq<char>, i: int) -> int
    decreases i,
{
    if i <= 0 || i > s.len() {
        0
    } else if !is_white(s[i - 1]) {
        i
    } else {
        last_black(s, i - 1)
    }
}

/// The text without white space at either end.
pub open spec fn trimmed(s: Seq<char>) -> Seq<char> {
    let a = skip_white(s, 0);
    let b = last_black(s, s.len() as int);
    if a < b {
        s.subrange(a, b)
    } else {
        Seq::empty()
    }
}

/// See the spec function of nearly the same name, `skip_white`.
fn after_white(s: &Vec<char>, from: usize) -> (at: usize)
    requires
        from <= s@.len(),
    ensures
        at == skip_white(s@, from as int),
        from <= at <= s@.len(),
        at < s@.len() ==> !is_white(s@[at as int]),
{
    let mut i: usize = from;
    while i < s.len()
        invariant
            from <= i <= s@.len(),
            skip_white(s@, from as int) == skip_white(s@, i as int),
        decreases s@.len() - i,
    {
        if !white(s[i]) {
            return i;
        }
        i += 1;
    }
    i
}

/// The end of the word that starts at `from`.
fn word_end(s: &Vec<char>, from: usize) -> (at: usize)
    requires
        from <= s@.len(),
    ensures
        at == find_white(s@, from as int),
        from <= at <= s@.len(),
        from < s@.len() && !is_white(s@[from as int]) ==> from < at,
{
    let mut i: usize = from;
    while i < s.len()
        invariant
            from <= i <= s@.len(),
            find_white(s@, from as int) == find_white(s@, i as int),
            i == from || !is_white(s@[from as int]),
        decreases s@.len() - i,
    {
        if white(s[i]) {
            return i;
        }
        i += 1;
    }
    i
}

/// The text of `s` without white space at either end.
pub fn trim(s: &Vec<char>) -> (out: Vec<char>)
    ensures
        out@ == trimmed(s@),
{
    let a: usize = after_white(s, 0);
    let mut b: usize = s.len();
    while b > 0 && white(s[b - 1])
        invariant
            b <= s@.len(),
            last_black(s@, s@.len() as int) == last_black(s@, b as int),
        decreases b,
    {
        b -= 1;
    }
    let mut out: Vec<char> = Vec::new();
    let mut i: usize = a;
    while i < b
        invariant
            a <= i,
            i <= b || i == a,
            b <= s@.len(),
            a < b ==> out@ == s@.subrange(a as int, i as int),
            a >= b ==> out@ == Seq::<char>::empty(),
        decreases b - i,
    {
        out.push(s[i]);
        i += 1;
    }
    out
}

/// The words of `s` from position `i` on: what stands between runs of white space.
pub open spec fn words_from(s: Seq<char>, i: int) -> Seq<Seq<char>>
    decreases s.len() - i,
    when 0 <= i <= s.len()
    via words_from_decreases
{
    let a = skip_white(s, i);
    if a >= s.len() {
        Seq::empty()
    } else {
        let b = find_white(s, a);
        seq![s.subrange(a, b)] + words_from(s, b)
    }
}

#[via_fn]
proof fn words_from_decreases(s: Seq<char>, i: int) {
    lemma_white_bounds(s, i);
    lemma_white_bounds(s, skip_white(s, i));
}

proof fn lemma_white_bounds(s: Seq<char>, i: int)
    requires
        0 <= i <= s.len(),
    ensures
        i <= skip_white(s, i) <= s.len(),
        i <= find_white(s, i) <= s.len(),
        skip_white(s, i) < s.len() ==> !is_white(s[skip_white(s, i)]),
        i < s.len() && !is_white(s[i]) ==> i < find_white(s, i),
    decreases s.len() - i,
{
    if i < s.len() {
        lemma_white_bounds(s, i + 1);
    }
}

/// The words of a text: what stands between runs of white space.
pub open spec fn words(s: Seq<char>) -> Seq<Seq<char>> {
    words_from(s, 0)
}

/// The text of an optional string.
pub open spec fn text_opt(s: Option<String>) -> Option<Seq<char>> {
    match s {
        Some(t) => Some(t@),
        None => None,
    }
}

/// The text of each element.
pub open spec fn texts(v: Seq<String>) -> Seq<Seq<char>> {
    v.map_values(|s: String| s@)
}

/// The words of a text.
pub fn split_words(s: &Vec<char>) -> (out: Vec<String>)
    ensures
        texts(out@) == words(s@),
{
    let mut out: Vec<String> = Vec::new();
    let mut i: usize = 0;
    assert(texts(out@) + words_from(s@, 0) =~= words(s@));
    while i < s.len()
        invariant
            i <= s@.len(),
            texts(out@) + words_from(s@, i as int) == words(s@),
        decreases s@.len() - i,
    {
        let a: usize = after_white(s, i);
        if a >= s.len() {
            assert(words_from(s@, i as int) =~= Seq::empty());
            assert(texts(out@) =~= words(s@));
            return out;
        }
        let b: usize = word_end(s, a);
        let ghost before = out@;
        let word = string_of(s, a, b);
        out.push(word);
        assert(texts(out@) =~= texts(before).push(word@));
        assert(texts(out@) + words_from(s@, b as int) =~= texts(before) + (seq![word@] + words_from(
            s@,
            b as int,
        )));
        i = b;
    }
    assert(words_from(s@, i as int) =~= Seq::empty());
    assert(texts(out@) =~= words(s@));
    out
}

/// A line without the carriage return that may end it.
pub open spec fn without_cr(s: Seq<char>) -> Seq<char> {
    if s.len() > 0 && s.last() == '\r' {
        s.drop_last()
    } else {
        s
    }
}

/// The lines of `s` from position `i` on. A line ends at a line feed, or at a carriage return
/// with a line feed behind it; what follows the last line feed is a line where it is not empty.
pub open spec fn lines_from(s: Seq<char>, i: int) -> Seq<Seq<char>>
    decreases s.len() - i,
    when 0 <= i <= s.len()
    via lines_from_decreases
{
    if i >= s.len() {
        Seq::empty()
    } else {
        let n = find_from(s, '\n', i);
        if n >= s.len() {
            seq![s.subrange(i, n)]
        } else {
            seq![without_cr(s.subrange(i, n))] + lines_from(s, n + 1)
        }
    }
}

#[via_fn]
proof fn lines_from_decreases(s: Seq<char>, i: int) {
    lemma_find_from(s, '\n', i);
}

/// The lines of a text.
pub open spec fn lines(s: Seq<char>) -> Seq<Seq<char>> {
    lines_from(s, 0)
}

/// The character of a decimal digit.
pub open spec fn digit(d: nat) -> char {
    ('0' as u32 + d) as char
}

/// A number in decimal, without leading zeros.
pub open spec fn decimal(n: nat) -> Seq<char>
    decreases n,
{
    if n < 10 {
        seq![digit(n)]
    } else {
        decimal(n / 10).push(digit(n % 10))
    }
}

/// A number in decimal is not empty and holds nothing but digits.
pub proof fn lemma_decimal_digits(n: nat)
    ensures
        decimal(n).len() > 0,
        forall|k: int| 0 <= k < decimal(n).len() ==> is_digit(#[trigger] decimal(n)[k]),
    decreases n,
{
    if n >= 10 {
        lemma_decimal_digits(n / 10);
        assert forall|k: int| 0 <= k < decimal(n).len() implies is_digit(#[trigger] decimal(n)[k]) by {
            if k < decimal(n / 10).len() {
                assert(decimal(n)[k] == decimal(n / 10)[k]);
            }
        }
    }
}

/// Append a number in decimal.
pub fn push_decimal(out: &mut String, n: u64)
    ensures
        final(out)@ == old(out)@ + decimal(n as nat),
    decreases n,
{
    if n >= 10 {
        push_decimal(out, n / 10);
    }
    let d: u8 = (n % 10) as u8;
    out.push((48 + d) as char);
    assert(out@ =~= old(out)@ + decimal(n as nat));
}

/// Why a text is no number.
#[derive(Clone, Copy, Debug, PartialEq, Eq, Structural)]
pub enum NumberFault {
    /// There is nothing to read.
    Empty,
    /// A character is no decimal digit.
    InvalidDigit,
    /// The number is too large.
    TooLarge,
}

/// Whether a character is a decimal digit.
pub open spec fn is_digit(c: char) -> bool {
    '0' <= c <= '9'
}

/// The number that the digits of `s` from position `i` on continue, where those before stand for
/// `acc`; the first fault on the way otherwise.
pub open spec fn scan_number(s: Seq<char>, i: int, acc: nat, max: nat) -> Result<nat, NumberFault>
    decreases s.len() - i,
{
    if i < 0 || i >= s.len() {
        Ok(acc)
    } else if !is_digit(s[i]) {
        Err(NumberFault::InvalidDigit)
    } else {
        let next = acc * 10 + (s[i] as u32 - '0' as u32) as nat;
        if next > max {
            Err(NumberFault::TooLarge)
        } else {
            scan_number(s, i + 1, next, max)
        }
    }
}

/// The number that a text stands for: decimal digits, with at most one `+` before them, up to
/// `max`.
pub open spec fn number(s: Seq<char>, max: nat) -> Result<nat, NumberFault> {
    if s.len() == 0 {
        Err(NumberFault::Empty)
    } else if s[0] == '+' && s.len() > 1 {
        scan_number(s, 1, 0, max)
    } else {
        scan_number(s, 0, 0, max)
    }
}

/// Read a number: decimal digits, with at most one `+` before them, up to `max`.
pub fn parse_number(s: &Vec<char>, max: u64) -> (out: Result<u64, NumberFault>)
    ensures
        match out {
            Ok(n) => number(s@, max as nat) == Ok::<nat, NumberFault>(n as nat),
            Err(e) => number(s@, max as nat) == Err::<nat, NumberFault>(e),
        },
        out matches Ok(n) ==> n <= max,
{
    if s.len() == 0 {
        return Err(NumberFault::Empty);
    }
    let mut i: usize = 0;
    if s[0] == '+' && s.len() > 1 {
        i = 1;
    }
    let mut acc: u64 = 0;
    while i < s.len()
        invariant
            i <= s@.len(),
            acc <= max,
            number(s@, max as nat) == scan_number(s@, i as int, acc as nat, max as nat),
        decreases s@.len() - i,
    {
        let c = s[i];
        if c < '0' || c > '9' {
            return Err(NumberFault::InvalidDigit);
        }
        let next: u128 = acc as u128 * 10 + (c as u32 - '0' as u32) as u128;
        if next > max as u128 {
            return Err(NumberFault::TooLarge);
        }
        acc = next as u64;
        i += 1;
    }
    Ok(acc)
}

proof fn lemma_scan_push(s: Seq<char>, c: char, i: int, acc: nat, max: nat, v: nat)
    requires
        0 <= i <= s.len(),
        is_digit(c),
        scan_number(s, i, acc, max) == Ok::<nat, NumberFault>(v),
        v * 10 + (c as u32 - '0' as u32) <= max,
    ensures
        scan_number(s.push(c), i, acc, max) == Ok::<nat, NumberFault>(
            (v * 10 + (c as u32 - '0' as u32)) as nat,
        ),
    decreases s.len() - i,
{
    if i < s.len() {
        let next = acc * 10 + (s[i] as u32 - '0' as u32) as nat;
        lemma_scan_push(s, c, i + 1, next, max, v);
        assert(s.push(c)[i] == s[i]);
    } else {
        let t = s.push(c);
        assert(t[i] == c);
        let next = acc * 10 + (c as u32 - '0' as u32) as nat;
        assert(scan_number(t, i + 1, next, max) == Ok::<nat, NumberFault>(next));
    }
}

proof fn lemma_scan_decimal(n: nat, max: nat)
    requires
        n <= max,
    ensures
        decimal(n).len() > 0,
        is_digit(decimal(n)[0]),
        scan_number(decimal(n), 0, 0, max) == Ok::<nat, NumberFault>(n),
    decreases n,
{
    if n < 10 {
        assert(scan_number(decimal(n), 1, n, max) == Ok::<nat, NumberFault>(n));
    } else {
        lemma_scan_decimal(n / 10, max);
        assert(decimal(n)[0] == decimal(n / 10)[0]);
        lemma_scan_push(decimal(n / 10), digit(n % 10), 0, 0, max, n / 10);
    }
}

/// Reading a number that was written in decimal gives the number back.
pub proof fn law_number_of_decimal(n: nat, max: nat)
    requires
        n <= max,
    ensures
        number(decimal(n), max) == Ok::<nat, NumberFault>(n),
{
    lemma_scan_decimal(n, max);
}

/// The text behind `prefix`, where `s` starts with it.
pub open spec fn after_prefix(s: Seq<char>, prefix: Seq<char>) -> Option<Seq<char>> {
    if has_at(s, prefix, 0) {
        Some(s.skip(prefix.len() as int))
    } else {
        None
    }
}

/// The text behind `prefix`, where `s` starts with it.
pub fn strip_prefix(s: &str, prefix: &str) -> (out: Option<String>)
    ensures
        match out {
            Some(t) => after_prefix(s@, prefix@) == Some(t@),
            None => after_prefix(s@, prefix@) is None,
        },
{
    let cs = chars_of(s);
    let ps = chars_of(prefix);
    if holds_at(&cs, &ps, 0) {
        Some(string_of(&cs, ps.len(), cs.len()))
    } else {
        None
    }
}

/// The position of the first `pat` at or after `i`; `None` where there is none.
pub open spec fn find_text(s: Seq<char>, pat: Seq<char>, i: int) -> Option<int>
    decreases s.len() + 1 - i,
{
    if i < 0 || i > s.len() {
        None
    } else if has_at(s, pat, i) {
        Some(i)
    } else {
        find_text(s, pat, i + 1)
    }
}

/// The position of the first `pat` at or after `from`.
pub fn find_chars(s: &Vec<char>, pat: &Vec<char>, from: usize) -> (at: Option<usize>)
    requires
        from <= s@.len(),
    ensures
        match at {
            Some(i) => find_text(s@, pat@, from as int) == Some(i as int) && from <= i && i
                + pat@.len() <= s@.len(),
            None => find_text(s@, pat@, from as int) is None,
        },
{
    let mut i: usize = from;
    loop
        invariant
            from <= i <= s@.len(),
            find_text(s@, pat@, from as int) == find_text(s@, pat@, i as int),
        decreases s@.len() - i,
    {
        if holds_at(s, pat, i) {
            return Some(i);
        }
        if i == s.len() {
            assert(find_text(s@, pat@, i + 1) is None);
            return None;
        }
        i += 1;
    }
}

/// The ASCII upper case of a character; every other character stays.
pub open spec fn ascii_upper(c: char) -> char {
    if 'a' <= c <= 'z' {
        (c as u32 - 32) as char
    } else {
        c
    }
}

/// What `str::to_uppercase` makes of a text with characters beyond ASCII.
pub uninterp spec fn unicode_upper(s: Seq<char>) -> Seq<char>;

/// The upper case of a text.
pub open spec fn upper(s: Seq<char>) -> Seq<char> {
    if is_ascii_chars(s) {
        s.map_values(|c: char| ascii_upper(c))
    } else {
        unicode_upper(s)
    }
}

/// `str::to_uppercase`: on ASCII text the letters `a` to `z` become `A` to `Z` and the rest stays.
/// What comes of any other text is a function of the text alone, and no more is said of it.
#[verifier::external_body]
pub(crate) fn to_upper(s: &str) -> (out: String)
    ensures
        out@ == (if is_ascii_chars(s@) {
            s@.map_values(|c: char| ascii_upper(c))
        } else {
            unicode_upper(s@)
        }),
{
    s.to_uppercase()
}

/// What stands between the `c`s of `s` from position `i` on; one piece more than there are `c`s.
pub open spec fn pieces_from(s: Seq<char>, c: char, i: int) -> Seq<Seq<char>>
    decreases s.len() - i,
    when 0 <= i <= s.len()
    via pieces_from_decreases
{
    let n = find_from(s, c, i);
    if n >= s.len() {
        seq![s.subrange(i, n)]
    } else {
        seq![s.subrange(i, n)] + pieces_from(s, c, n + 1)
    }
}

#[via_fn]
proof fn pieces_from_decreases(s: Seq<char>, c: char, i: int) {
    lemma_find_from(s, c, i);
}

/// What stands between the `c`s of a text.
pub open spec fn pieces(s: Seq<char>, c: char) -> Seq<Seq<char>> {
    pieces_from(s, c, 0)
}

/// What stands between the `c`s of a text.
pub fn split_on(s: &Vec<char>, c: char) -> (out: Vec<String>)
    ensures
        texts(out@) == pieces(s@, c),
{
    let mut out: Vec<String> = Vec::new();
    let mut i: usize = 0;
    assert(texts(out@) + pieces_from(s@, c, 0) =~= pieces(s@, c));
    loop
        invariant
            i <= s@.len(),
            texts(out@) + pieces_from(s@, c, i as int) == pieces(s@, c),
        decreases s@.len() - i,
    {
        let n: usize = find_char(s, c, i);
        let ghost before = out@;
        let piece = string_of(s, i, n);
        out.push(piece);
        assert(texts(out@) =~= texts(before) + seq![piece@]);
        if n >= s.len() {
            return out;
        }
        assert(texts(out@) + pieces_from(s@, c, n + 1) =~= texts(before) + (seq![piece@]
            + pieces_from(s@, c, n + 1)));
        i = n + 1;
    }
}

proof fn lemma_find_parted(d: Seq<char>, rest: Seq<char>, c: char, i: int)
    requires
        0 <= i <= d.len(),
        !d.contains(c),
    ensures
        find_from(d + (seq![c] + rest), c, i) == d.len(),
        find_from(d, c, i) == d.len(),
    decreases d.len() - i,
{
    let s = d + (seq![c] + rest);
    if i < d.len() {
        assert(s[i] == d[i]);
        assert(d.contains(d[i]));
        lemma_find_parted(d, rest, c, i + 1);
    } else {
        assert(s[i] == c);
    }
}

proof fn lemma_pieces_shift(s: Seq<char>, c: char, k: int, i: int)
    requires
        0 <= k <= i <= s.len(),
    ensures
        pieces_from(s.skip(k), c, i - k) == pieces_from(s, c, i),
    decreases s.len() - i,
{
    lemma_find_shift(s, c, k, i);
    lemma_find_from(s, c, i);
    let n = find_from(s, c, i);
    assert(s.skip(k).subrange(i - k, n - k) =~= s.subrange(i, n));
    if n < s.len() {
        lemma_pieces_shift(s, c, k, n + 1);
    }
}

/// The pieces of a text that a `c` parts from another, and of one without a `c`.
pub proof fn lemma_pieces_cons(d: Seq<char>, rest: Seq<char>, c: char)
    requires
        !d.contains(c),
    ensures
        pieces(d + (seq![c] + rest), c) == seq![d] + pieces(rest, c),
        pieces(d, c) == seq![d],
{
    let s = d + (seq![c] + rest);
    let n = d.len() as int;
    lemma_find_parted(d, rest, c, 0);
    assert(s.subrange(0, n) =~= d);
    assert(s.skip(n + 1) =~= rest);
    lemma_pieces_shift(s, c, n + 1, n + 1);
    assert(d.subrange(0, n) =~= d);
}

/// The pieces of two texts with a `c` between are those of the one and of the other.
pub proof fn lemma_pieces_of_both(a: Seq<char>, b: Seq<char>, c: char)
    ensures
        pieces(a + (seq![c] + b), c) == pieces(a, c) + pieces(b, c),
    decreases a.len(),
{
    lemma_find_from(a, c, 0);
    let n = find_from(a, c, 0);
    let d = a.take(n);
    assert(!d.contains(c)) by {
        if d.contains(c) {
            let k = choose|k: int| 0 <= k < d.len() && d[k] == c;
            assert(a[k] == c);
        }
    }
    if n == a.len() {
        assert(d =~= a);
        lemma_pieces_cons(a, b, c);
    } else {
        let rest = a.skip(n + 1);
        assert(a =~= d + (seq![c] + rest));
        assert(a + (seq![c] + b) =~= d + (seq![c] + (rest + (seq![c] + b))));
        lemma_pieces_cons(d, rest, c);
        lemma_pieces_cons(d, rest + (seq![c] + b), c);
        lemma_pieces_of_both(rest, b, c);
        assert(seq![d] + (pieces(rest, c) + pieces(b, c)) =~= seq![d] + pieces(rest, c) + pieces(
            b,
            c,
        ));
    }
}

proof fn lemma_find_white_at(s: Seq<char>, i: int, n: int)
    requires
        0 <= i <= n <= s.len(),
        forall|j: int| i <= j < n ==> !is_white(#[trigger] s[j]),
        n < s.len() ==> is_white(s[n]),
    ensures
        find_white(s, i) == n,
    decreases n - i,
{
    if i < n {
        lemma_find_white_at(s, i + 1, n);
    }
}

proof fn lemma_skip_white_shift(s: Seq<char>, k: int, i: int)
    requires
        0 <= k <= i <= s.len(),
    ensures
        skip_white(s.skip(k), i - k) == skip_white(s, i) - k,
        find_white(s.skip(k), i - k) == find_white(s, i) - k,
    decreases s.len() - i,
{
    if i < s.len() {
        assert(s.skip(k)[i - k] == s[i]);
        lemma_skip_white_shift(s, k, i + 1);
    }
}

proof fn lemma_words_shift(s: Seq<char>, k: int, i: int)
    requires
        0 <= k <= i <= s.len(),
    ensures
        words_from(s.skip(k), i - k) == words_from(s, i),
    decreases s.len() - i,
{
    lemma_skip_white_shift(s, k, i);
    lemma_white_bounds(s, i);
    let a = skip_white(s, i);
    if a < s.len() {
        lemma_skip_white_shift(s, k, a);
        lemma_white_bounds(s, a);
        let b = find_white(s, a);
        assert(s.skip(k).subrange(a - k, b - k) =~= s.subrange(a, b));
        lemma_words_shift(s, k, b);
    }
}

/// White space at the start of a text adds no word.
pub proof fn law_leading_white_space_is_no_word(c: char, rest: Seq<char>)
    requires
        is_white(c),
    ensures
        words(seq![c] + rest) == words(rest),
{
    let s = seq![c] + rest;
    assert(s.skip(1) =~= rest);
    lemma_words_shift(s, 1, 1);
    assert(s[0] == c);
    assert(skip_white(s, 0) == skip_white(s, 1));
}

/// The words of a text are what stands between its white space, in order and unchanged: a word with
/// white space behind it is followed by the words of what follows, and a word alone is the only one.
pub proof fn law_words_are_parted_by_white_space(word: Seq<char>, c: char, rest: Seq<char>)
    requires
        word.len() > 0,
        forall|k: int| 0 <= k < word.len() ==> !is_white(#[trigger] word[k]),
        is_white(c),
    ensures
        words(word + (seq![c] + rest)) == seq![word] + words(rest),
        words(word) == seq![word],
        words(Seq::<char>::empty()) == Seq::<Seq<char>>::empty(),
{
    let s = word + (seq![c] + rest);
    let n = word.len() as int;
    assert forall|j: int| 0 <= j < n implies !is_white(#[trigger] s[j]) by {
        assert(s[j] == word[j]);
    }
    assert(s[n] == c);
    lemma_find_white_at(s, 0, n);
    assert(skip_white(s, 0) == 0);
    assert(s.subrange(0, n) =~= word);
    lemma_words_shift(s, n, n);
    assert(s.skip(n) =~= seq![c] + rest);
    law_leading_white_space_is_no_word(c, rest);
    lemma_find_white_at(word, 0, n);
    assert(skip_white(word, 0) == 0);
    assert(word.subrange(0, n) =~= word);
    assert(words_from(word, n) =~= Seq::empty());
    assert(words(Seq::<char>::empty()) =~= Seq::empty());
}

/// Blanks, tabs and line ends are white space; visible ASCII characters are not.
pub proof fn law_white_space_is_what_is_not_seen(c: char)
    ensures
        c == ' ' || c == '\t' || c == '\r' || c == '\n' ==> is_white(c),
        '!' <= c <= '~' ==> !is_white(c),
{
}

proof fn lemma_skip_white_at(s: Seq<char>, i: int, n: int)
    requires
        0 <= i <= n <= s.len(),
        forall|j: int| i <= j < n ==> is_white(#[trigger] s[j]),
        n < s.len() ==> !is_white(s[n]),
    ensures
        skip_white(s, i) == n,
    decreases n - i,
{
    if i < n {
        lemma_skip_white_at(s, i + 1, n);
    }
}

proof fn lemma_last_black_at(s: Seq<char>, i: int, n: int)
    requires
        0 <= n <= i <= s.len(),
        forall|j: int| n <= j < i ==> is_white(#[trigger] s[j]),
        n > 0 ==> !is_white(s[n - 1]),
    ensures
        last_black(s, i) == n,
    decreases i - n,
{
    if i > n {
        lemma_last_black_at(s, i - 1, n);
    }
}

/// Trimming takes the white space off both ends and leaves what stands between as it is.
pub proof fn law_trimming_takes_white_space_off_the_ends(
    before: Seq<char>,
    s: Seq<char>,
    behind: Seq<char>,
)
    requires
        forall|k: int| 0 <= k < before.len() ==> is_white(#[trigger] before[k]),
        forall|k: int| 0 <= k < behind.len() ==> is_white(#[trigger] behind[k]),
        s.len() > 0 ==> !is_white(s[0]) && !is_white(s.last()),
    ensures
        trimmed(before + s + behind) == s,
{
    let t = before + s + behind;
    let (a, b) = (before.len() as int, (before.len() + s.len()) as int);
    assert forall|j: int| 0 <= j < a implies is_white(#[trigger] t[j]) by {
        assert(t[j] == before[j]);
    }
    assert forall|j: int| b <= j < t.len() implies is_white(#[trigger] t[j]) by {
        assert(t[j] == behind[j - b]);
    }
    if s.len() > 0 {
        assert(t[a] == s[0]);
        assert(t[b - 1] == s.last());
        lemma_skip_white_at(t, 0, a);
        lemma_last_black_at(t, t.len() as int, b);
        assert(t.subrange(a, b) =~= s);
    } else {
        assert forall|j: int| 0 <= j < t.len() implies is_white(#[trigger] t[j]) by {
            if j < a {
                assert(t[j] == before[j]);
            } else {
                assert(t[j] == behind[j - b]);
            }
        }
        lemma_skip_white_at(t, 0, t.len() as int);
        lemma_last_black_at(t, t.len() as int, 0);
    }
}

proof fn lemma_scan_number(s: Seq<char>, i: int, acc: nat, max: nat)
    requires
        0 <= i <= s.len(),
        acc <= max,
    ensures
        scan_number(s, i, acc, max) matches Ok(n) ==> acc <= n <= max && forall|k: int|
            i <= k < s.len() ==> is_digit(#[trigger] s[k]),
        (forall|k: int| i <= k < s.len() ==> is_digit(#[trigger] s[k])) ==> scan_number(
            s,
            i,
            acc,
            max,
        ) != Err::<nat, NumberFault>(NumberFault::InvalidDigit),
        scan_number(s, i, acc, max) != Err::<nat, NumberFault>(NumberFault::Empty),
    decreases s.len() - i,
{
    if i < s.len() && is_digit(s[i]) {
        let next = acc * 10 + (s[i] as u32 - '0' as u32) as nat;
        if next <= max {
            lemma_scan_number(s, i + 1, next, max);
        }
    }
}

/// What is read as a number is within its bound and made of digits, a `+` before them aside; a text
/// of nothing but digits is refused only for being too large, and only an empty one for being empty.
pub proof fn law_numbers_are_digits_within_bounds(s: Seq<char>, max: nat)
    ensures
        number(s, max) matches Ok(n) ==> n <= max && s.len() > 0 && (is_digit(s[0]) || s[0] == '+')
            && forall|k: int| 1 <= k < s.len() ==> '0' <= #[trigger] s[k] <= '9',
        s.len() > 0 && (forall|k: int| 0 <= k < s.len() ==> '0' <= #[trigger] s[k] <= '9') ==> (number(
            s,
            max,
        ) is Ok || number(s, max) == Err::<nat, NumberFault>(NumberFault::TooLarge)),
        number(s, max) == Err::<nat, NumberFault>(NumberFault::Empty) <==> s.len() == 0,
{
    lemma_scan_number(s, 0, 0, max);
    if s.len() > 0 {
        lemma_scan_number(s, 1, 0, max);
        if forall|k: int| 0 <= k < s.len() ==> '0' <= #[trigger] s[k] <= '9' {
            assert(s[0] != '+');
            assert forall|k: int| 0 <= k < s.len() implies is_digit(#[trigger] s[k]) by {}
            match number(s, max) {
                Ok(_) => {},
                Err(f) => {
                    assert(f != NumberFault::InvalidDigit && f != NumberFault::Empty);
                },
            }
        }
    }
}

proof fn lemma_scan_too_large(n: nat, max: nat)
    requires
        n > max,
    ensures
        scan_number(decimal(n), 0, 0, max) == Err::<nat, NumberFault>(NumberFault::TooLarge),
    decreases n,
{
    if n < 10 {
        assert(decimal(n)[0] == digit(n));
    } else if n / 10 <= max {
        lemma_scan_decimal(n / 10, max);
        lemma_scan_push_over(decimal(n / 10), digit(n % 10), 0, 0, max, n / 10);
    } else {
        lemma_scan_too_large(n / 10, max);
        lemma_scan_fault_stays(decimal(n / 10), digit(n % 10), 0, 0, max);
    }
}

proof fn lemma_scan_push_over(s: Seq<char>, c: char, i: int, acc: nat, max: nat, v: nat)
    requires
        0 <= i <= s.len(),
        is_digit(c),
        scan_number(s, i, acc, max) == Ok::<nat, NumberFault>(v),
        v * 10 + (c as u32 - '0' as u32) > max,
    ensures
        scan_number(s.push(c), i, acc, max) == Err::<nat, NumberFault>(NumberFault::TooLarge),
    decreases s.len() - i,
{
    if i < s.len() {
        let next = acc * 10 + (s[i] as u32 - '0' as u32) as nat;
        lemma_scan_push_over(s, c, i + 1, next, max, v);
        assert(s.push(c)[i] == s[i]);
    } else {
        assert(s.push(c)[i] == c);
    }
}

proof fn lemma_scan_fault_stays(s: Seq<char>, c: char, i: int, acc: nat, max: nat)
    requires
        0 <= i <= s.len(),
        scan_number(s, i, acc, max) is Err,
    ensures
        scan_number(s.push(c), i, acc, max) == scan_number(s, i, acc, max),
    decreases s.len() - i,
{
    if i < s.len() {
        assert(s.push(c)[i] == s[i]);
        if is_digit(s[i]) {
            let next = acc * 10 + (s[i] as u32 - '0' as u32) as nat;
            if next <= max {
                lemma_scan_fault_stays(s, c, i + 1, next, max);
            }
        }
    }
}

/// A number above its bound is refused for being too large.
pub proof fn law_number_past_its_bound_is_refused(n: nat, max: nat)
    requires
        n > max,
    ensures
        number(decimal(n), max) == Err::<nat, NumberFault>(NumberFault::TooLarge),
{
    lemma_decimal_digits(n);
    assert(is_digit(decimal(n)[0]));
    lemma_scan_too_large(n, max);
}

/// Zeros before a number do not change it.
pub proof fn law_leading_zero_changes_nothing(s: Seq<char>, max: nat)
    requires
        s.len() > 0,
        s[0] != '+',
    ensures
        number(seq!['0'] + s, max) == number(s, max),
{
    let t = seq!['0'] + s;
    assert(t[0] == '0');
    assert(scan_number(t, 0, 0, max) == scan_number(t, 1, 0, max));
    lemma_scan_shift(t, s, 1, 0, max);
}

proof fn lemma_scan_shift(t: Seq<char>, s: Seq<char>, i: int, acc: nat, max: nat)
    requires
        t.len() == s.len() + 1,
        t.skip(1) == s,
        1 <= i <= t.len(),
    ensures
        scan_number(t, i, acc, max) == scan_number(s, i - 1, acc, max),
    decreases t.len() - i,
{
    if i < t.len() {
        assert(t[i] == t.skip(1)[i - 1]);
        let next = acc * 10 + (t[i] as u32 - '0' as u32) as nat;
        lemma_scan_shift(t, s, i + 1, next, max);
    }
}

/// The decimal form of a number ends with its last digit, behind the decimal form of the rest.
pub proof fn law_decimal_is_positional(n: nat, d: nat)
    requires
        d < 10,
        n > 0,
    ensures
        decimal(n * 10 + d) == decimal(n).push(('0' as u32 + d) as char),
        decimal(d) == seq![('0' as u32 + d) as char],
{
    assert((n * 10 + d) / 10 == n && (n * 10 + d) % 10 == d) by (nonlinear_arith)
        requires
            d < 10,
    ;
}

/// Lower case changes the letters `A` to `Z` into `a` to `z`, and no other character.
pub proof fn law_lower_case_is_of_ascii_letters(s: Seq<char>, k: int)
    requires
        0 <= k < s.len(),
    ensures
        lowered(s).len() == s.len(),
        'A' <= s[k] <= 'Z' ==> lowered(s)[k] as u32 == s[k] as u32 + 32,
        !('A' <= s[k] <= 'Z') ==> lowered(s)[k] == s[k],
{
}

} // verus!

//! The two patterns by which addresses are found in text.
use regex::Regex;
use vstd::prelude::*;
use vstd::utf8::*;

verus! {

/// An address of version 4 in dotted form. An octet may have leading zeros.
pub const IPV4: &'static str = "(?:(?:25[0-5]|2[0-4]\\d|[01]?\\d\\d?)\\.){3}(?:25[0-5]|2[0-4]\\d|[01]?\\d\\d?)";

/// A port: two to five digits.
pub const PORT: &'static str = "\\d{2,5}";

/// A compiled regular expression. It is carried, not looked into.
#[verifier::external_type_specification]
#[verifier::external_body]
pub struct ExRegex(Regex);

/// A pattern that is ready to search with. Only [`compile`] makes one, so the two fields belong
/// together.
pub struct Pattern {
    source: String,
    regex: Regex,
}

impl View for Pattern {
    type V = Seq<char>;

    /// The text that the pattern was made from.
    closed spec fn view(&self) -> Seq<char> {
        self.source@
    }
}

/// What a pattern matched: the bytes from `start` up to `end`, and their text.
#[derive(Debug, PartialEq, Eq)]
pub struct Found {
    pub start: usize,
    pub end: usize,
    pub text: String,
}

/// The contents of a [`Found`].
pub struct FoundView {
    pub start: nat,
    pub end: nat,
    pub text: Seq<char>,
}

impl View for Found {
    type V = FoundView;

    open spec fn view(&self) -> FoundView {
        FoundView { start: self.start as nat, end: self.end as nat, text: self.text@ }
    }
}

/// The contents of an optional match.
pub open spec fn found_view(f: Option<Found>) -> Option<FoundView> {
    match f {
        Some(f) => Some(f@),
        None => None,
    }
}

/// What `regex::Regex::find_at` finds first for a pattern in a text, from a byte offset on.
pub uninterp spec fn regex_find(pattern: Seq<char>, text: Seq<char>, start: nat) -> Option<FoundView>;

/// `regex::Regex::new`: both patterns are well formed, so each compiles.
#[verifier::external_body]
pub(crate) fn compile(source: &str) -> (out: Pattern)
    requires
        source@ == IPV4@ || source@ == PORT@,
    ensures
        out@ == source@,
{
    Pattern { source: source.to_owned(), regex: Regex::new(source).unwrap() }
}

/// `regex::Regex::find_at`, which panics on an offset behind the end: the first match from the
/// offset on is a function of the pattern, the text and the offset. It lies between the offset and
/// the end, its ends are boundaries of characters, and its text is what stands between them.
#[verifier::external_body]
pub(crate) fn find_at(pattern: &Pattern, text: &str, start: usize) -> (out: Option<Found>)
    requires
        start <= encode_utf8(text@).len(),
    ensures
        found_view(out) == regex_find(pattern@, text@, start as nat),
        out matches Some(f) ==> start <= f.start <= f.end <= encode_utf8(text@).len(),
        out matches Some(f) ==> is_char_boundary(encode_utf8(text@), f.end as int),
        out matches Some(f) ==> encode_utf8(f.text@) == encode_utf8(text@).subrange(
            f.start as int,
            f.end as int,
        ),
{
    let m = pattern.regex.find_at(text, start)?;
    Some(Found { start: m.start(), end: m.end(), text: m.as_str().to_owned() })
}

} // verus!

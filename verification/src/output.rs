//! Proxies as text: the output formats, the template and the progress line.
use crate::addr;
use crate::proxy::Proxy;
use crate::text;
use crate::types::{Proto, Types};
use vstd::prelude::*;
use vstd::string::*;

verus! {

/// How proxies are written.
#[derive(Clone, Copy, Debug, PartialEq, Eq, Structural)]
pub enum Format {
    /// `host:port`, one to a line.
    Default,
    /// The same.
    Txt,
    /// A JSON object to a line.
    Json,
    /// One JSON array.
    JsonArray,
    /// `scheme://host:port`, one to a line.
    Url,
    /// Comma-separated columns under a heading.
    Csv,
}

/// The measures of a proxy written out: the mean response time and the error rate.
#[derive(Debug, PartialEq, Eq)]
pub struct Figures {
    pub resp_time: String,
    pub error_rate: String,
}

/// How a client reaches a proxy: by either version of SOCKS where it speaks one, the later first,
/// else by HTTP. What the proxy can tunnel does not matter here.
pub open spec fn scheme_of(t: Types) -> Seq<char> {
    if t.has(Proto::Socks5) {
        "socks5"@
    } else if t.has(Proto::Socks4) {
        "socks4"@
    } else {
        "http"@
    }
}

/// How a client reaches a proxy.
pub fn scheme_str(p: &Proxy) -> (out: &'static str)
    ensures
        out@ == scheme_of(p.types),
{
    if p.types.contains(Proto::Socks5) {
        "socks5"
    } else if p.types.contains(Proto::Socks4) {
        "socks4"
    } else {
        "http"
    }
}

/// The names of protocols with `sep` between.
pub open spec fn names_joined(keys: Seq<Proto>, sep: char) -> Seq<char>
    decreases keys.len(),
{
    if keys.len() == 0 {
        Seq::empty()
    } else if keys.len() == 1 {
        keys[0].name()
    } else {
        names_joined(keys.drop_last(), sep) + seq![sep] + keys.last().name()
    }
}

/// The names of a proxy's confirmed protocols with `sep` between.
pub fn join_protos(p: &Proxy, sep: char) -> (out: String)
    ensures
        out@ == names_joined(p.types.key_seq(), sep),
{
    let keys = p.types.keys();
    let mut out = String::new();
    let mut i: usize = 0;
    while i < keys.len()
        invariant
            i <= keys@.len(),
            keys@ == p.types.key_seq(),
            out@ == names_joined(keys@.take(i as int), sep),
        decreases keys@.len() - i,
    {
        let ghost before = out@;
        if i > 0 {
            out.push(sep);
        }
        out.append(keys[i].as_str());
        proof {
            let upto = keys@.take(i + 1);
            assert(upto.drop_last() =~= keys@.take(i as int));
            assert(out@ =~= names_joined(upto, sep));
        }
        i += 1;
    }
    assert(keys@.take(i as int) =~= keys@);
    out
}

/// The names of a proxy's confirmed protocols with bars between.
pub fn proto_list(p: &Proxy) -> (out: String)
    ensures
        out@ == names_joined(p.types.key_seq(), '|'),
{
    join_protos(p, '|')
}

/// The name of the anonymity level found for HTTP; empty where none was.
pub open spec fn anon_of(t: Types) -> Seq<char> {
    match t.http {
        Some(Some(l)) => l.name(),
        _ => ""@,
    }
}

/// The name of the anonymity level found for HTTP; empty where none was.
pub fn anon_str(p: &Proxy) -> (out: &'static str)
    ensures
        out@ == anon_of(p.types),
{
    match p.types.get(Proto::Http) {
        Some(Some(l)) => l.as_str(),
        _ => "",
    }
}

/// The code of a proxy's country; empty where it is unknown.
pub open spec fn country_code(p: Proxy) -> Seq<char> {
    match p.geo {
        Some(g) => g.code@,
        None => ""@,
    }
}

/// The code of a proxy's country; empty where it is unknown.
pub fn country_str(p: &Proxy) -> (out: String)
    ensures
        out@ == country_code(*p),
{
    match &p.geo {
        Some(g) => g.code.clone(),
        None => "".to_owned(),
    }
}

/// The number of a proxy's autonomous system; empty where it is unknown.
pub open spec fn asn_number(p: Proxy) -> Seq<char> {
    match p.asn {
        Some(a) => text::decimal(a.number as nat),
        None => ""@,
    }
}

/// The number of a proxy's autonomous system; empty where it is unknown.
pub fn asn_str(p: &Proxy) -> (out: String)
    ensures
        out@ == asn_number(*p),
{
    match &p.asn {
        Some(a) => decimal_text(a.number as u64),
        None => "".to_owned(),
    }
}

/// The owner of a proxy's autonomous system; empty where it is unknown.
pub open spec fn asn_owner(p: Proxy) -> Seq<char> {
    match p.asn {
        Some(a) => match a.org {
            Some(o) => o@,
            None => ""@,
        },
        None => ""@,
    }
}

/// The owner of a proxy's autonomous system; empty where it is unknown.
pub fn asn_org_str(p: &Proxy) -> (out: String)
    ensures
        out@ == asn_owner(*p),
{
    match &p.asn {
        Some(a) => match &a.org {
            Some(o) => o.clone(),
            None => "".to_owned(),
        },
        None => "".to_owned(),
    }
}

/// A number in decimal.
pub fn decimal_text(n: u64) -> (out: String)
    ensures
        out@ == text::decimal(n as nat),
{
    let mut out = String::new();
    text::push_decimal(&mut out, n);
    assert(out@ =~= text::decimal(n as nat));
    out
}

/// The text from position `i` on with `by` in place of every `token`, each sought behind the one
/// before.
pub open spec fn replaced_from(s: Seq<char>, token: Seq<char>, by: Seq<char>, i: int) -> Seq<char>
    decreases s.len() - i,
    when 0 <= i <= s.len() && token.len() > 0
    via replaced_from_decreases
{
    match text::find_text(s, token, i) {
        None => s.skip(i),
        Some(k) => s.subrange(i, k) + by + replaced_from(s, token, by, k + token.len()),
    }
}

#[via_fn]
proof fn replaced_from_decreases(s: Seq<char>, token: Seq<char>, by: Seq<char>, i: int) {
    lemma_find_text(s, token, i);
}

proof fn lemma_find_text(s: Seq<char>, pat: Seq<char>, i: int)
    requires
        0 <= i,
    ensures
        text::find_text(s, pat, i) matches Some(k) ==> i <= k && text::has_at(s, pat, k) && forall|
            j: int,
        |
            i <= j < k ==> !(#[trigger] text::has_at(s, pat, j)),
        text::find_text(s, pat, i) is None ==> forall|j: int|
            i <= j ==> !(#[trigger] text::has_at(s, pat, j)),
    decreases s.len() + 1 - i,
{
    if i <= s.len() && !text::has_at(s, pat, i) {
        lemma_find_text(s, pat, i + 1);
    }
}

/// The text with `by` in place of every `token`.
pub open spec fn replaced(s: Seq<char>, token: Seq<char>, by: Seq<char>) -> Seq<char> {
    replaced_from(s, token, by, 0)
}

/// Put `by` in place of every `token`.
pub fn replace(s: String, token: &str, by: &str) -> (out: String)
    requires
        token@.len() > 0,
    ensures
        out@ == replaced(s@, token@, by@),
{
    let cs = text::chars_of(s.as_str());
    let pat = text::chars_of(token);
    let mut out = String::new();
    let mut i: usize = 0;
    assert(out@ + replaced_from(s@, token@, by@, 0) =~= replaced(s@, token@, by@));
    loop
        invariant
            i <= cs@.len() == cs.len(),
            cs@ == s@,
            pat@ == token@,
            pat@.len() > 0,
            out@ + replaced_from(s@, token@, by@, i as int) == replaced(s@, token@, by@),
        decreases cs@.len() - i,
    {
        let ghost before = out@;
        match text::find_chars(&cs, &pat, i) {
            None => {
                let tail = text::string_of(&cs, i, cs.len());
                out.append(tail.as_str());
                assert(tail@ =~= s@.skip(i as int));
                return out;
            },
            Some(k) => {
                let part = text::string_of(&cs, i, k);
                out.append(part.as_str());
                out.append(by);
                let next: usize = k + pat.len();
                assert(out@ + replaced_from(s@, token@, by@, next as int) =~= before + (part@ + by@
                    + replaced_from(s@, token@, by@, next as int)));
                i = next;
            },
        }
    }
}

/// A text without a token stays as it is.
pub proof fn law_text_without_token_stays(s: Seq<char>, token: Seq<char>, by: Seq<char>)
    requires
        token.len() > 0,
        forall|j: int| 0 <= j ==> !(#[trigger] text::has_at(s, token, j)),
    ensures
        replaced(s, token, by) == s,
{
    lemma_find_text(s, token, 0);
    assert(s.skip(0) =~= s);
}

/// A template with a proxy's details in place of its tokens, one kind of token after the other.
pub open spec fn filled(tmpl: Seq<char>, p: Proxy, f: Figures) -> Seq<char> {
    let a = replaced(tmpl, "{{proxy}}"@, addr::socket_text(p.host, p.port));
    let b = replaced(a, "{{host}}"@, p.host.text());
    let c = replaced(b, "{{port}}"@, text::decimal(p.port as nat));
    let d = replaced(c, "{{scheme}}"@, scheme_of(p.types));
    let e = replaced(d, "{{protocols}}"@, names_joined(p.types.key_seq(), '|'));
    let g = replaced(e, "{{anon}}"@, anon_of(p.types));
    let h = replaced(g, "{{country}}"@, country_code(p));
    let i = replaced(h, "{{asn}}"@, asn_number(p));
    let j = replaced(i, "{{asn_org}}"@, asn_owner(p));
    let k = replaced(j, "{{duration}}"@, f.resp_time@);
    replaced(k, "{{error_rate}}"@, f.error_rate@)
}

/// Put a proxy's details in place of the tokens of a template. Tokens that are not known stay.
pub fn render_template(tmpl: &str, p: &Proxy, figures: &Figures) -> (out: String)
    ensures
        out@ == filled(tmpl@, *p, *figures),
{
    proof {
        reveal_strlit("{{proxy}}");
        reveal_strlit("{{host}}");
        reveal_strlit("{{port}}");
        reveal_strlit("{{scheme}}");
        reveal_strlit("{{protocols}}");
        reveal_strlit("{{anon}}");
        reveal_strlit("{{country}}");
        reveal_strlit("{{asn}}");
        reveal_strlit("{{asn_org}}");
        reveal_strlit("{{duration}}");
        reveal_strlit("{{error_rate}}");
    }
    let out = replace(tmpl.to_owned(), "{{proxy}}", p.addr().as_str());
    let out = replace(out, "{{host}}", p.host.to_text().as_str());
    let out = replace(out, "{{port}}", decimal_text(p.port as u64).as_str());
    let out = replace(out, "{{scheme}}", scheme_str(p));
    let out = replace(out, "{{protocols}}", proto_list(p).as_str());
    let out = replace(out, "{{anon}}", anon_str(p));
    let out = replace(out, "{{country}}", country_str(p).as_str());
    let out = replace(out, "{{asn}}", asn_str(p).as_str());
    let out = replace(out, "{{asn_org}}", asn_org_str(p).as_str());
    let out = replace(out, "{{duration}}", figures.resp_time.as_str());
    replace(out, "{{error_rate}}", figures.error_rate.as_str())
}

/// The columns of a proxy with commas between.
pub open spec fn csv_text(p: Proxy, f: Figures) -> Seq<char> {
    p.host.text() + ","@ + text::decimal(p.port as nat) + ","@ + names_joined(
        p.types.key_seq(),
        '|',
    ) + ","@ + anon_of(p.types) + ","@ + country_code(p) + ","@ + f.resp_time@ + ","@ + f.error_rate@
}

/// The columns of a proxy with commas between. No column holds a comma by its nature, so none is
/// quoted.
pub fn csv_row(p: &Proxy, figures: &Figures) -> (out: String)
    ensures
        out@ == csv_text(*p, *figures),
{
    let mut out = p.host.to_text();
    out.append(",");
    text::push_decimal(&mut out, p.port as u64);
    out.append(",");
    out.append(proto_list(p).as_str());
    out.append(",");
    out.append(anon_str(p));
    out.append(",");
    out.append(country_str(p).as_str());
    out.append(",");
    out.append(figures.resp_time.as_str());
    out.append(",");
    out.append(figures.error_rate.as_str());
    assert(out@ =~= csv_text(*p, *figures));
    out
}

/// Writes proxies one after the other: something before the first, each proxy, something behind
/// the last. A template goes before the format and always gives lines.
#[derive(Debug, PartialEq, Eq)]
pub struct Emitter<'a> {
    pub format: Format,
    pub template: Option<&'a str>,
    /// Whether a proxy was written.
    pub started: bool,
}

/// What is written before the first proxy.
pub open spec fn prefix_of(format: Format, template: Option<Seq<char>>) -> Option<Seq<char>> {
    if template is Some {
        None
    } else {
        match format {
            Format::JsonArray => Some("["@),
            Format::Csv => Some("host,port,protocols,anon,country,resp_time,error_rate\n"@),
            _ => None,
        }
    }
}

/// What is written behind the last proxy.
pub open spec fn suffix_of(format: Format, template: Option<Seq<char>>) -> Option<Seq<char>> {
    if template is None && format == Format::JsonArray {
        Some("]\n"@)
    } else {
        None
    }
}

/// What is written for a proxy. Its JSON comes written out.
pub open spec fn item_of(
    format: Format,
    template: Option<Seq<char>>,
    started: bool,
    p: Proxy,
    json: Seq<char>,
    f: Figures,
) -> Seq<char> {
    match template {
        Some(t) => filled(t, p, f) + "\n"@,
        None => match format {
            Format::Default => addr::socket_text(p.host, p.port) + "\n"@,
            Format::Txt => addr::socket_text(p.host, p.port) + "\n"@,
            Format::Json => json + "\n"@,
            Format::Url => scheme_of(p.types) + "://"@ + addr::socket_text(p.host, p.port) + "\n"@,
            Format::Csv => csv_text(p, f) + "\n"@,
            Format::JsonArray => if started {
                ","@ + json
            } else {
                json
            },
        },
    }
}

/// The text of an optional template.
pub open spec fn template_text(t: Option<&str>) -> Option<Seq<char>> {
    match t {
        Some(s) => Some(s@),
        None => None,
    }
}

impl<'a> Emitter<'a> {
    /// A writer at its start.
    pub fn new(format: Format, template: Option<&'a str>) -> (out: Emitter<'a>)
        ensures
            out.format == format,
            out.template == template,
            !out.started,
    {
        Emitter { format, template, started: false }
    }

    /// What to write before the first proxy.
    pub fn prefix(&self) -> (out: Option<String>)
        ensures
            text::text_opt(out) == prefix_of(self.format, template_text(self.template)),
    {
        if self.template.is_some() {
            return None;
        }
        match self.format {
            Format::JsonArray => Some("[".to_owned()),
            Format::Csv => Some(
                "host,port,protocols,anon,country,resp_time,error_rate\n".to_owned(),
            ),
            _ => None,
        }
    }

    /// What to write for a proxy, given its JSON and its measures written out.
    pub fn item(&mut self, proxy: &Proxy, json: &str, figures: &Figures) -> (out: String)
        ensures
            out@ == item_of(
                old(self).format,
                template_text(old(self).template),
                old(self).started,
                *proxy,
                json@,
                *figures,
            ),
            final(self).format == old(self).format,
            final(self).template == old(self).template,
            final(self).started == (old(self).started || (old(self).template is None && old(
                self,
            ).format == Format::JsonArray)),
    {
        if let Some(t) = self.template {
            let mut out = render_template(t, proxy, figures);
            out.append("\n");
            return out;
        }
        match self.format {
            Format::Default | Format::Txt => {
                let mut out = proxy.addr();
                out.append("\n");
                out
            },
            Format::Json => {
                let mut out = json.to_owned();
                out.append("\n");
                out
            },
            Format::Url => {
                let mut out = scheme_str(proxy).to_owned();
                out.append("://");
                out.append(proxy.addr().as_str());
                out.append("\n");
                out
            },
            Format::Csv => {
                let mut out = csv_row(proxy, figures);
                out.append("\n");
                out
            },
            Format::JsonArray => {
                let mut out = if self.started {
                    ",".to_owned()
                } else {
                    String::new()
                };
                self.started = true;
                out.append(json);
                assert(Seq::<char>::empty() + json@ =~= json@);
                out
            },
        }
    }

    /// What to write behind the last proxy.
    pub fn suffix(&self) -> (out: Option<String>)
        ensures
            text::text_opt(out) == suffix_of(self.format, template_text(self.template)),
    {
        if self.template.is_none() && self.format == Format::JsonArray {
            Some("]\n".to_owned())
        } else {
            None
        }
    }
}

/// An optional text, empty where there is none.
pub open spec fn text_or_nothing(s: Option<Seq<char>>) -> Seq<char> {
    match s {
        Some(t) => t,
        None => Seq::empty(),
    }
}

/// What the items of some proxies come to, where `started` says whether one was written before.
pub open spec fn items_text(
    format: Format,
    template: Option<Seq<char>>,
    started: bool,
    ps: Seq<Proxy>,
    jsons: Seq<Seq<char>>,
    fs: Seq<Figures>,
) -> Seq<char>
    decreases ps.len(),
{
    if ps.len() == 0 {
        Seq::empty()
    } else {
        item_of(format, template, started, ps[0], jsons[0], fs[0]) + items_text(
            format,
            template,
            started || (template is None && format == Format::JsonArray),
            ps.skip(1),
            jsons.skip(1),
            fs.skip(1),
        )
    }
}

/// All that is written for some proxies.
pub open spec fn document(
    format: Format,
    template: Option<Seq<char>>,
    ps: Seq<Proxy>,
    jsons: Seq<Seq<char>>,
    fs: Seq<Figures>,
) -> Seq<char> {
    text_or_nothing(prefix_of(format, template)) + items_text(
        format,
        template,
        false,
        ps,
        jsons,
        fs,
    ) + text_or_nothing(suffix_of(format, template))
}

/// Texts with commas between.
pub open spec fn comma_joined(v: Seq<Seq<char>>) -> Seq<char>
    decreases v.len(),
{
    if v.len() == 0 {
        Seq::empty()
    } else if v.len() == 1 {
        v[0]
    } else {
        v[0] + ","@ + comma_joined(v.skip(1))
    }
}

proof fn lemma_later_array_items(ps: Seq<Proxy>, jsons: Seq<Seq<char>>, fs: Seq<Figures>)
    requires
        ps.len() == jsons.len(),
        ps.len() == fs.len(),
    ensures
        items_text(Format::JsonArray, None, true, ps, jsons, fs) == (if ps.len() == 0 {
            Seq::<char>::empty()
        } else {
            ","@ + comma_joined(jsons)
        }),
    decreases ps.len(),
{
    if ps.len() > 0 {
        lemma_later_array_items(ps.skip(1), jsons.skip(1), fs.skip(1));
        let rest = items_text(Format::JsonArray, None, true, ps.skip(1), jsons.skip(1), fs.skip(1));
        if ps.len() == 1 {
            assert(","@ + jsons[0] + rest =~= ","@ + comma_joined(jsons));
        } else {
            assert(","@ + jsons[0] + rest =~= ","@ + (jsons[0] + ","@ + comma_joined(jsons.skip(1))));
        }
    }
}

/// A JSON array is written well formed, however many proxies there are: a bracket, their objects
/// with commas between, and a bracket with a line end.
pub proof fn law_json_array_is_well_formed(ps: Seq<Proxy>, jsons: Seq<Seq<char>>, fs: Seq<Figures>)
    requires
        ps.len() == jsons.len(),
        ps.len() == fs.len(),
    ensures
        document(Format::JsonArray, None, ps, jsons, fs) == "["@ + comma_joined(jsons) + "]\n"@,
{
    if ps.len() > 0 {
        lemma_later_array_items(ps.skip(1), jsons.skip(1), fs.skip(1));
        let rest = items_text(Format::JsonArray, None, true, ps.skip(1), jsons.skip(1), fs.skip(1));
        assert(items_text(Format::JsonArray, None, false, ps, jsons, fs) == jsons[0] + rest);
        if ps.len() == 1 {
            assert(jsons[0] + rest =~= comma_joined(jsons));
        } else {
            assert(jsons[0] + rest =~= jsons[0] + ","@ + comma_joined(jsons.skip(1)));
        }
    } else {
        assert(comma_joined(jsons) =~= Seq::<char>::empty());
        assert(items_text(Format::JsonArray, None, false, ps, jsons, fs) =~= Seq::<char>::empty());
    }
}

/// Where a reader of JSON stands: how many brackets are open, whether in a string, and whether
/// right behind a backslash in it.
pub struct JsonPlace {
    pub open: int,
    pub quoted: bool,
    pub escaped: bool,
}

/// Outside every bracket and every string.
pub open spec fn json_top() -> JsonPlace {
    JsonPlace { open: 0, quoted: false, escaped: false }
}

/// Where a reader of JSON stands behind one more character.
pub open spec fn json_step(at: JsonPlace, c: char) -> JsonPlace {
    if at.quoted {
        JsonPlace { escaped: !at.escaped && c == '\\', quoted: at.escaped || c != '"', ..at }
    } else if c == '"' {
        JsonPlace { quoted: true, ..at }
    } else if c == '{' || c == '[' {
        JsonPlace { open: at.open + 1, ..at }
    } else if c == '}' || c == ']' {
        JsonPlace { open: at.open - 1, ..at }
    } else {
        at
    }
}

/// Where a reader of JSON stands behind the first `i` characters of a text.
pub open spec fn json_place(s: Seq<char>, i: int) -> JsonPlace
    decreases i,
{
    if i <= 0 {
        json_top()
    } else {
        json_step(json_place(s, i - 1), s[i - 1])
    }
}

/// The position of the first comma at or after `i` that stands in no bracket and no string; the
/// length where there is none.
pub open spec fn json_comma(s: Seq<char>, i: int) -> int
    decreases s.len() - i,
{
    if i < 0 || i >= s.len() {
        s.len() as int
    } else if s[i] == ',' && json_place(s, i) == json_top() {
        i
    } else {
        json_comma(s, i + 1)
    }
}

proof fn lemma_json_comma(s: Seq<char>, i: int)
    requires
        0 <= i <= s.len(),
    ensures
        i <= json_comma(s, i) <= s.len(),
    decreases s.len() - i,
{
    if i < s.len() {
        lemma_json_comma(s, i + 1);
    }
}

/// The texts between the commas that stand in no bracket and no string.
pub open spec fn json_parts(s: Seq<char>) -> Seq<Seq<char>>
    decreases s.len(),
    via json_parts_decreases
{
    let n = json_comma(s, 0);
    if n < s.len() {
        seq![s.take(n)] + json_parts(s.skip(n + 1))
    } else {
        seq![s]
    }
}

#[via_fn]
proof fn json_parts_decreases(s: Seq<char>) {
    lemma_json_comma(s, 0);
}

/// The elements of a JSON array that stands between a bracket and a bracket with a line end.
pub open spec fn json_elements(s: Seq<char>) -> Seq<Seq<char>> {
    let inner = s.subrange(1, s.len() - 2);
    if inner.len() == 0 {
        Seq::empty()
    } else {
        json_parts(inner)
    }
}

/// Whether a text closes every bracket and string that it opens, and holds no comma outside them,
/// as every JSON object does.
pub open spec fn is_one_json(s: Seq<char>) -> bool {
    &&& s.len() > 0
    &&& json_place(s, s.len() as int) == json_top()
    &&& forall|i: int|
        0 <= i < s.len() && #[trigger] s[i] == ',' ==> json_place(s, i) != json_top()
}

proof fn lemma_place_before(a: Seq<char>, b: Seq<char>, i: int)
    requires
        i <= a.len(),
    ensures
        json_place(a + b, i) == json_place(a, i),
    decreases i,
{
    if i > 0 {
        lemma_place_before(a, b, i - 1);
        assert((a + b)[i - 1] == a[i - 1]);
    }
}

proof fn lemma_comma_behind(one: Seq<char>, b: Seq<char>, i: int)
    requires
        is_one_json(one),
        b.len() > 0 ==> b[0] == ',',
        0 <= i <= one.len(),
    ensures
        json_comma(one + b, i) == one.len(),
    decreases one.len() - i,
{
    let s = one + b;
    lemma_place_before(one, b, i);
    if i < one.len() {
        assert(s[i] == one[i]);
        lemma_comma_behind(one, b, i + 1);
    } else if b.len() > 0 {
        assert(s[i] == b[0]);
    }
}

proof fn lemma_parts_of_joined(jsons: Seq<Seq<char>>)
    requires
        jsons.len() > 0,
        forall|k: int| 0 <= k < jsons.len() ==> is_one_json(#[trigger] jsons[k]),
    ensures
        json_parts(comma_joined(jsons)) == jsons,
        comma_joined(jsons).len() > 0,
    decreases jsons.len(),
{
    let one = jsons[0];
    let joined = comma_joined(jsons);
    if jsons.len() == 1 {
        assert(joined =~= one + Seq::empty());
        lemma_comma_behind(one, Seq::empty(), 0);
        assert(jsons =~= seq![one]);
    } else {
        let rest = jsons.skip(1);
        assert forall|k: int| 0 <= k < rest.len() implies is_one_json(#[trigger] rest[k]) by {
            assert(rest[k] == jsons[k + 1]);
        }
        lemma_parts_of_joined(rest);
        reveal_strlit(",");
        let b = ","@ + comma_joined(rest);
        assert(joined =~= one + b);
        lemma_comma_behind(one, b, 0);
        assert(joined.take(one.len() as int) =~= one);
        assert(joined.skip(one.len() as int + 1) =~= comma_joined(rest));
        assert(jsons =~= seq![one] + rest);
    }
}

/// A JSON array has exactly the objects of its proxies for elements, in their order, however many
/// there are.
pub proof fn law_json_array_holds_each_object(
    ps: Seq<Proxy>,
    jsons: Seq<Seq<char>>,
    fs: Seq<Figures>,
)
    requires
        ps.len() == jsons.len(),
        ps.len() == fs.len(),
        forall|k: int| 0 <= k < jsons.len() ==> is_one_json(#[trigger] jsons[k]),
    ensures
        json_elements(document(Format::JsonArray, None, ps, jsons, fs)) == jsons,
{
    law_json_array_is_well_formed(ps, jsons, fs);
    reveal_strlit("[");
    reveal_strlit("]\n");
    let s = document(Format::JsonArray, None, ps, jsons, fs);
    assert(s.subrange(1, s.len() - 2) =~= comma_joined(jsons));
    if jsons.len() > 0 {
        lemma_parts_of_joined(jsons);
    } else {
        assert(comma_joined(jsons).len() == 0);
        assert(jsons =~= Seq::empty());
    }
}

proof fn lemma_find_in_line(line: Seq<char>, rest: Seq<char>, i: int)
    requires
        0 <= i <= line.len(),
        !line.contains('\n'),
    ensures
        text::find_from(line + seq!['\n'] + rest, '\n', i) == line.len(),
    decreases line.len() - i,
{
    let s = line + seq!['\n'] + rest;
    if i < line.len() {
        assert(s[i] == line[i]);
        assert(line.contains(line[i]));
        lemma_find_in_line(line, rest, i + 1);
    } else {
        assert(s[i] == '\n');
    }
}

proof fn lemma_lines_shift(s: Seq<char>, k: int, i: int)
    requires
        0 <= k <= i <= s.len(),
    ensures
        text::lines_from(s.skip(k), i - k) == text::lines_from(s, i),
    decreases s.len() - i,
{
    if i < s.len() {
        text::lemma_find_shift(s, '\n', k, i);
        text::lemma_find_from(s, '\n', i);
        let n = text::find_from(s, '\n', i);
        assert(s.skip(k).subrange(i - k, n - k) =~= s.subrange(i, n));
        if n < s.len() {
            lemma_lines_shift(s, k, n + 1);
        }
    }
}

/// The lines of a line with a line feed and of what follows.
proof fn lemma_lines_cons(line: Seq<char>, rest: Seq<char>)
    requires
        !line.contains('\n'),
        line.len() == 0 || line.last() != '\r',
    ensures
        text::lines(line + seq!['\n'] + rest) == seq![line] + text::lines(rest),
{
    let s = line + seq!['\n'] + rest;
    lemma_find_in_line(line, rest, 0);
    let n = line.len() as int;
    assert(s.subrange(0, n) =~= line);
    assert(s.skip(n + 1) =~= rest);
    lemma_lines_shift(s, n + 1, n + 1);
    assert(text::lines_from(s, 0) == seq![text::without_cr(s.subrange(0, n))] + text::lines_from(
        s,
        n + 1,
    ));
}

/// In the format of one object to a line, each line of what is written is one proxy's object, in
/// order and with nothing around it, where no object holds a line end.
pub proof fn law_ndjson_has_one_object_to_a_line(
    started: bool,
    ps: Seq<Proxy>,
    jsons: Seq<Seq<char>>,
    fs: Seq<Figures>,
)
    requires
        ps.len() == jsons.len(),
        ps.len() == fs.len(),
        forall|i: int| 0 <= i < jsons.len() ==> !(#[trigger] jsons[i]).contains('\n'),
        forall|i: int|
            0 <= i < jsons.len() ==> (#[trigger] jsons[i]).len() > 0 && jsons[i].last() != '\r',
    ensures
        text::lines(items_text(Format::Json, None, started, ps, jsons, fs)) == jsons,
        document(Format::Json, None, ps, jsons, fs) == items_text(
            Format::Json,
            None,
            false,
            ps,
            jsons,
            fs,
        ),
    decreases ps.len(),
{
    let body = items_text(Format::Json, None, false, ps, jsons, fs);
    assert(document(Format::Json, None, ps, jsons, fs) =~= body);
    if ps.len() > 0 {
        reveal_strlit("\n");
        assert("\n"@ =~= seq!['\n']);
        assert forall|i: int| 0 <= i < jsons.skip(1).len() implies !(#[trigger] jsons.skip(
            1,
        )[i]).contains('\n') && jsons.skip(1)[i].len() > 0 && jsons.skip(1)[i].last() != '\r' by {
            assert(jsons.skip(1)[i] == jsons[i + 1]);
        }
        law_ndjson_has_one_object_to_a_line(started, ps.skip(1), jsons.skip(1), fs.skip(1));
        let rest = items_text(Format::Json, None, started, ps.skip(1), jsons.skip(1), fs.skip(1));
        assert(!jsons[0].contains('\n'));
        lemma_lines_cons(jsons[0], rest);
        assert(items_text(Format::Json, None, started, ps, jsons, fs) =~= jsons[0] + seq!['\n']
            + rest);
        assert(seq![jsons[0]] + jsons.skip(1) =~= jsons);
    } else {
        assert(text::lines(Seq::<char>::empty()) =~= jsons);
    }
}

/// A template is written as lines only: nothing stands before the first proxy or behind the last.
pub proof fn law_template_ignores_the_format(format: Format, tmpl: Seq<char>)
    ensures
        prefix_of(format, Some(tmpl)) is None,
        suffix_of(format, Some(tmpl)) is None,
{
}

proof fn lemma_started_items(
    format: Format,
    template: Option<Seq<char>>,
    started: bool,
    ps: Seq<Proxy>,
    jsons: Seq<Seq<char>>,
    fs: Seq<Figures>,
    p: Proxy,
    json: Seq<char>,
    f: Figures,
)
    requires
        ps.len() == jsons.len(),
        ps.len() == fs.len(),
    ensures
        items_text(format, template, started, ps.push(p), jsons.push(json), fs.push(f))
            == items_text(format, template, started, ps, jsons, fs) + item_of(
            format,
            template,
            started || (template is None && format == Format::JsonArray && ps.len() > 0),
            p,
            json,
            f,
        ),
    decreases ps.len(),
{
    let (ps1, jsons1, fs1) = (ps.push(p), jsons.push(json), fs.push(f));
    if ps.len() == 0 {
        let item = item_of(format, template, started, p, json, f);
        reveal_with_fuel(items_text, 2);
        assert(items_text(format, template, started, ps1, jsons1, fs1) =~= Seq::<char>::empty()
            + item);
    } else {
        let next = started || (template is None && format == Format::JsonArray);
        lemma_started_items(
            format,
            template,
            next,
            ps.skip(1),
            jsons.skip(1),
            fs.skip(1),
            p,
            json,
            f,
        );
        assert(ps1.skip(1) =~= ps.skip(1).push(p));
        assert(jsons1.skip(1) =~= jsons.skip(1).push(json));
        assert(fs1.skip(1) =~= fs.skip(1).push(f));
        let first = item_of(format, template, started, ps[0], jsons[0], fs[0]);
        let rest = items_text(format, template, next, ps.skip(1), jsons.skip(1), fs.skip(1));
        let last = item_of(format, template, next, p, json, f);
        assert(first + (rest + last) =~= first + rest + last);
    }
}

/// What is written for some proxies and one more is what is written for those, and the item of the
/// one more.
pub proof fn law_each_proxy_adds_its_item(
    format: Format,
    template: Option<Seq<char>>,
    ps: Seq<Proxy>,
    jsons: Seq<Seq<char>>,
    fs: Seq<Figures>,
    p: Proxy,
    json: Seq<char>,
    f: Figures,
)
    requires
        ps.len() == jsons.len(),
        ps.len() == fs.len(),
    ensures
        items_text(format, template, false, ps.push(p), jsons.push(json), fs.push(f))
            == items_text(format, template, false, ps, jsons, fs) + item_of(
            format,
            template,
            template is None && format == Format::JsonArray && ps.len() > 0,
            p,
            json,
            f,
        ),
{
    lemma_started_items(format, template, false, ps, jsons, fs, p, json, f);
}

/// The names of protocols hold neither commas nor anything else that parts columns.
proof fn lemma_names_without_comma(keys: Seq<Proto>)
    ensures
        !names_joined(keys, '|').contains(','),
    decreases keys.len(),
{
    reveal_strlit("HTTP");
    reveal_strlit("HTTPS");
    reveal_strlit("SOCKS4");
    reveal_strlit("SOCKS5");
    reveal_strlit("CONNECT:80");
    reveal_strlit("CONNECT:25");
    if keys.len() > 1 {
        lemma_names_without_comma(keys.drop_last());
        let before = names_joined(keys.drop_last(), '|');
        let name = keys.last().name();
        let s = names_joined(keys, '|');
        assert forall|k: int| 0 <= k < s.len() implies #[trigger] s[k] != ',' by {
            if k < before.len() {
                assert(before.contains(s[k]));
            } else if k > before.len() {
                assert(s[k] == name[k - before.len() - 1]);
            }
        }
    }
}

/// A row of columns has seven of them, each as it is, where the country's code and the figures hold
/// no comma.
pub proof fn law_csv_row_has_seven_columns(p: Proxy, f: Figures)
    requires
        !country_code(p).contains(','),
        !f.resp_time@.contains(','),
        !f.error_rate@.contains(','),
    ensures
        text::pieces(csv_text(p, f), ',') == seq![
            p.host.text(),
            text::decimal(p.port as nat),
            names_joined(p.types.key_seq(), '|'),
            anon_of(p.types),
            country_code(p),
            f.resp_time@,
            f.error_rate@,
        ],
{
    let (host, port) = (p.host.text(), text::decimal(p.port as nat));
    let (names, anon, code) = (
        names_joined(p.types.key_seq(), '|'),
        anon_of(p.types),
        country_code(p),
    );
    let comma = seq![','];
    reveal_strlit(",");
    assert(","@ =~= comma);
    let t5 = f.resp_time@ + (comma + f.error_rate@);
    let t4 = code + (comma + t5);
    let t3 = anon + (comma + t4);
    let t2 = names + (comma + t3);
    let t1 = port + (comma + t2);
    assert(csv_text(p, f) =~= host + (comma + t1));
    addr::law_address_text_is_plain(p.host);
    assert(!host.contains(',')) by {
        assert forall|k: int| 0 <= k < host.len() implies #[trigger] host[k] != ',' by {
            assert(addr::is_addr_char(host[k]));
        }
    }
    text::lemma_decimal_digits(p.port as nat);
    assert(!port.contains(','));
    lemma_names_without_comma(p.types.key_seq());
    assert(!anon.contains(',')) by {
        reveal_strlit("");
        reveal_strlit("High");
        reveal_strlit("Anonymous");
        reveal_strlit("Transparent");
    }
    text::lemma_pieces_cons(f.error_rate@, f.error_rate@, ',');
    text::lemma_pieces_cons(f.resp_time@, f.error_rate@, ',');
    text::lemma_pieces_cons(code, t5, ',');
    text::lemma_pieces_cons(anon, t4, ',');
    text::lemma_pieces_cons(names, t3, ',');
    text::lemma_pieces_cons(port, t2, ',');
    text::lemma_pieces_cons(host, t1, ',');
    assert(text::pieces(csv_text(p, f), ',') =~= seq![
        host,
        port,
        names,
        anon,
        code,
        f.resp_time@,
        f.error_rate@,
    ]);
}

/// What a run has checked so far.
#[derive(Clone, Copy, Debug, PartialEq, Eq, Structural)]
pub struct Counts {
    pub total: usize,
    pub working: usize,
}

/// The progress line, with the mean response time written out.
pub open spec fn progress_text(c: Counts, avg: Seq<char>) -> Seq<char> {
    "checked "@ + text::decimal(c.total as nat) + " · working "@ + text::decimal(c.working as nat)
        + " · avg "@ + avg + "s"@
}

/// The progress line, with the mean response time written out.
pub fn render_progress(counts: &Counts, avg: &str) -> (out: String)
    ensures
        out@ == progress_text(*counts, avg@),
{
    let mut out = "checked ".to_owned();
    text::push_decimal(&mut out, counts.total as u64);
    out.append(" · working ");
    text::push_decimal(&mut out, counts.working as u64);
    out.append(" · avg ");
    out.append(avg);
    out.append("s");
    assert(out@ =~= progress_text(*counts, avg@));
    out
}

// ----- writing a stream of proxies

/// Writes a stream of proxies to its end.
#[derive(Debug, PartialEq, Eq)]
pub struct Drain<'a> {
    pub emitter: Emitter<'a>,
    /// How many proxies were written.
    pub count: u64,
    /// Whether each proxy is also saved, as one JSON object to a line.
    pub saves: bool,
    /// Whether progress is shown.
    pub shows: bool,
}

/// What to do with a proxy that came.
#[derive(Debug, PartialEq, Eq)]
pub struct Written {
    /// To be written.
    pub out: String,
    /// To be written to the file of saved proxies, where there is one.
    pub saved: Option<String>,
    /// Whether to move the progress on.
    pub advance: bool,
}

/// What is saved for a proxy: its JSON as a line.
pub open spec fn saved_line(json: Seq<char>) -> Seq<char> {
    json + "\n"@
}

/// The closing word on how many proxies were written to a file.
pub open spec fn report_text(count: u64, path: Seq<char>) -> Seq<char> {
    "wrote "@ + text::decimal(count as nat) + " proxies to "@ + path
}

impl<'a> Drain<'a> {
    /// A stream at its start.
    pub fn new(format: Format, template: Option<&'a str>, saves: bool, shows: bool) -> (out: Drain<
        'a,
    >)
        ensures
            out.emitter.format == format,
            out.emitter.template == template,
            !out.emitter.started,
            out.count == 0,
            out.saves == saves,
            out.shows == shows,
    {
        Drain { emitter: Emitter::new(format, template), count: 0, saves, shows }
    }

    /// What to write before the first proxy.
    pub fn start(&self) -> (out: Option<String>)
        ensures
            text::text_opt(out) == prefix_of(
                self.emitter.format,
                template_text(self.emitter.template),
            ),
    {
        self.emitter.prefix()
    }

    /// A proxy came: what to write, and what to save.
    pub fn take(&mut self, proxy: &Proxy, json: &str, figures: &Figures) -> (out: Written)
        requires
            old(self).count < u64::MAX,
        ensures
            out.out@ == item_of(
                old(self).emitter.format,
                template_text(old(self).emitter.template),
                old(self).emitter.started,
                *proxy,
                json@,
                *figures,
            ),
            text::text_opt(out.saved) == (if old(self).saves {
                Some(saved_line(json@))
            } else {
                None
            }),
            out.advance == old(self).shows,
            final(self).count == old(self).count + 1,
            final(self).saves == old(self).saves,
            final(self).shows == old(self).shows,
            final(self).emitter.format == old(self).emitter.format,
            final(self).emitter.template == old(self).emitter.template,
            final(self).emitter.started == (old(self).emitter.started || (old(
                self,
            ).emitter.template is None && old(self).emitter.format == Format::JsonArray)),
    {
        let out = self.emitter.item(proxy, json, figures);
        let saved = if self.saves {
            let mut line = json.to_owned();
            line.append("\n");
            Some(line)
        } else {
            None
        };
        self.count += 1;
        Written { out, saved, advance: self.shows }
    }

    /// It is time to show progress: the line to show, where progress is shown and there are counts.
    pub fn tick(&self, counts: Option<&Counts>, avg: &str) -> (out: Option<String>)
        ensures
            text::text_opt(out) == (match counts {
                Some(c) => if self.shows {
                    Some(progress_text(*c, avg@))
                } else {
                    None
                },
                None => None,
            }),
    {
        match counts {
            Some(c) => {
                if self.shows {
                    Some(render_progress(c, avg))
                } else {
                    None
                }
            },
            None => None,
        }
    }

    /// What to write behind the last proxy.
    pub fn finish(&self) -> (out: Option<String>)
        ensures
            text::text_opt(out) == suffix_of(
                self.emitter.format,
                template_text(self.emitter.template),
            ),
    {
        self.emitter.suffix()
    }

    /// The closing word on how many proxies were written to a file.
    pub fn report(&self, path: &str) -> (out: String)
        ensures
            out@ == report_text(self.count, path@),
    {
        let mut out = "wrote ".to_owned();
        text::push_decimal(&mut out, self.count);
        out.append(" proxies to ");
        out.append(path);
        assert(out@ =~= report_text(self.count, path@));
        out
    }
}

/// A name in double braces.
pub open spec fn braced(name: Seq<char>) -> Seq<char> {
    seq!['{', '{'] + name + seq!['}', '}']
}

/// Whether a text can be a name in braces: it holds none itself.
pub open spec fn is_name(s: Seq<char>) -> bool {
    !s.contains('{') && !s.contains('}')
}

proof fn lemma_replaced_shift(a: Seq<char>, s: Seq<char>, token: Seq<char>, by: Seq<char>, i: int)
    requires
        token.len() > 0,
        0 <= i <= s.len(),
    ensures
        replaced_from(a + s, token, by, a.len() + i) == replaced_from(s, token, by, i),
    decreases s.len() - i,
{
    lemma_find_behind(a, s, token, i);
    let t = a + s;
    lemma_find_text(s, token, i);
    match text::find_text(s, token, i) {
        None => {
            assert(t.skip(a.len() + i) =~= s.skip(i));
        },
        Some(k) => {
            lemma_replaced_shift(a, s, token, by, k + token.len());
            assert(t.subrange(a.len() + i, a.len() + k) =~= s.subrange(i, k));
        },
    }
}

proof fn lemma_find_behind(a: Seq<char>, s: Seq<char>, token: Seq<char>, i: int)
    requires
        0 <= i,
    ensures
        text::find_text(a + s, token, a.len() + i) == (match text::find_text(s, token, i) {
            Some(k) => Some(a.len() + k),
            None => None,
        }),
    decreases s.len() + 1 - i,
{
    if i <= s.len() {
        let t = a + s;
        if i + token.len() <= s.len() {
            assert(t.subrange(a.len() + i, a.len() + i + token.len()) =~= s.subrange(
                i,
                i + token.len(),
            ));
        }
        assert(text::has_at(t, token, a.len() + i) == text::has_at(s, token, i));
        lemma_find_behind(a, s, token, i + 1);
    }
}

proof fn lemma_find_past(t: Seq<char>, token: Seq<char>, i: int, n: int)
    requires
        0 <= i <= n <= t.len(),
        forall|j: int| i <= j < n ==> !(#[trigger] text::has_at(t, token, j)),
    ensures
        text::find_text(t, token, i) == text::find_text(t, token, n),
    decreases n - i,
{
    if i < n {
        assert(!text::has_at(t, token, i));
        lemma_find_past(t, token, i + 1, n);
    }
}

/// Where no token begins in the first of two texts, it stays and the second is treated by itself.
proof fn lemma_replaced_behind(a: Seq<char>, s: Seq<char>, token: Seq<char>, by: Seq<char>)
    requires
        token.len() > 0,
        forall|j: int| 0 <= j < a.len() ==> !(#[trigger] text::has_at(a + s, token, j)),
    ensures
        replaced(a + s, token, by) == a + replaced(s, token, by),
{
    let t = a + s;
    lemma_find_past(t, token, 0, a.len() as int);
    lemma_find_behind(a, s, token, 0);
    lemma_find_text(s, token, 0);
    match text::find_text(s, token, 0) {
        None => {
            assert(t.skip(0) =~= a + s.skip(0));
        },
        Some(k) => {
            lemma_replaced_shift(a, s, token, by, k + token.len());
            let rest = replaced_from(s, token, by, k + token.len());
            assert(t.subrange(0, a.len() + k) =~= a + s.subrange(0, k));
            assert(a + s.subrange(0, k) + by + rest =~= a + (s.subrange(0, k) + by + rest));
        },
    }
}

proof fn lemma_replaced_plain(a: Seq<char>, s: Seq<char>, name: Seq<char>, by: Seq<char>)
    requires
        !a.contains('{'),
    ensures
        replaced(a + s, braced(name), by) == a + replaced(s, braced(name), by),
{
    let token = braced(name);
    assert forall|j: int| 0 <= j < a.len() implies !(#[trigger] text::has_at(a + s, token, j)) by {
        if text::has_at(a + s, token, j) {
            assert((a + s).subrange(j, j + token.len())[0] == token[0]);
            assert((a + s)[j] == '{');
            assert(a[j] == '{');
        }
    }
    lemma_replaced_behind(a, s, token, by);
}

proof fn lemma_replaced_other(u: Seq<char>, s: Seq<char>, name: Seq<char>, by: Seq<char>)
    requires
        is_name(u),
        is_name(name),
        u != name,
    ensures
        replaced(braced(u) + s, braced(name), by) == braced(u) + replaced(s, braced(name), by),
{
    let (a, token) = (braced(u), braced(name));
    let t = a + s;
    assert forall|j: int| 0 <= j < a.len() implies !(#[trigger] text::has_at(t, token, j)) by {
        if text::has_at(t, token, j) {
            let here = t.subrange(j, j + token.len());
            assert forall|k: int| 0 <= k < token.len() implies t[j + k] == #[trigger] token[k] by {
                assert(here[k] == token[k]);
            }
            assert(t[j] == token[0]);
            assert(t[j + 1] == token[1]);
            if j == 0 {
                let (m, n) = (u.len() as int, name.len() as int);
                if n < m {
                    assert(t[n + 2] == token[n + 2]);
                    assert(u[n] == '}');
                    assert(u.contains('}'));
                } else if m < n {
                    assert(t[m + 2] == token[m + 2]);
                    assert(name[m] == '}');
                    assert(name.contains('}'));
                } else {
                    assert forall|k: int| 0 <= k < n implies u[k] == name[k] by {
                        assert(t[k + 2] == token[k + 2]);
                    }
                    assert(u =~= name);
                }
            } else if j == 1 {
                if u.len() > 0 {
                    assert(t[2] == u[0]);
                    assert(u.contains(u[0]));
                } else {
                    assert(t[2] == '}');
                }
            } else if j < 2 + u.len() {
                assert(t[j] == u[j - 2]);
                assert(u.contains(u[j - 2]));
            } else {
                assert(t[j] == '}');
            }
        }
    }
    lemma_replaced_behind(a, s, token, by);
}

proof fn lemma_replaced_token(name: Seq<char>, s: Seq<char>, by: Seq<char>)
    ensures
        replaced(braced(name) + s, braced(name), by) == by + replaced(s, braced(name), by),
{
    let token = braced(name);
    let t = token + s;
    assert(t.subrange(0, token.len() as int) =~= token);
    assert(text::has_at(t, token, 0));
    lemma_replaced_shift(token, s, token, by, 0);
    assert(t.subrange(0, 0) + by + replaced_from(s, token, by, 0) =~= by + replaced_from(
        s,
        token,
        by,
        0,
    ));
}

/// One kind of token put in its place, where `mid` is a token or holds no brace.
proof fn lemma_replaced_once(
    pre: Seq<char>,
    mid: Seq<char>,
    u: Seq<char>,
    s: Seq<char>,
    name: Seq<char>,
    by: Seq<char>,
)
    requires
        !pre.contains('{'),
        is_name(u),
        is_name(name),
        mid == braced(u) || !mid.contains('{'),
    ensures
        replaced(pre + mid + s, braced(name), by) == pre + (if mid == braced(u) && u == name {
            by
        } else {
            mid
        }) + replaced(s, braced(name), by),
{
    let token = braced(name);
    assert(pre + mid + s =~= pre + (mid + s));
    lemma_replaced_plain(pre, mid + s, name, by);
    if mid == braced(u) {
        if u == name {
            lemma_replaced_token(name, s, by);
            assert(pre + (by + replaced(s, token, by)) =~= pre + by + replaced(s, token, by));
        } else {
            lemma_replaced_other(u, s, name, by);
            assert(pre + (mid + replaced(s, token, by)) =~= pre + mid + replaced(s, token, by));
        }
    } else {
        lemma_replaced_plain(mid, s, name, by);
        assert(pre + (mid + replaced(s, token, by)) =~= pre + mid + replaced(s, token, by));
    }
}

/// The detail of a proxy that a name in a template stands for; none for a name that is not known.
pub open spec fn detail(name: Seq<char>, p: Proxy, f: Figures) -> Option<Seq<char>> {
    if name == "proxy"@ {
        Some(
            match p.host {
                addr::IpAddr::V4(_) => p.host.text() + seq![':'] + text::decimal(p.port as nat),
                addr::IpAddr::V6(_) => seq!['['] + p.host.text() + seq![']', ':'] + text::decimal(
                    p.port as nat,
                ),
            },
        )
    } else if name == "host"@ {
        Some(p.host.text())
    } else if name == "port"@ {
        Some(text::decimal(p.port as nat))
    } else if name == "scheme"@ {
        Some(
            if p.types.socks5 is Some {
                "socks5"@
            } else if p.types.socks4 is Some {
                "socks4"@
            } else {
                "http"@
            },
        )
    } else if name == "protocols"@ {
        Some(names_joined(p.types.key_seq(), '|'))
    } else if name == "anon"@ {
        Some(
            match p.types.http {
                Some(Some(l)) => l.name(),
                _ => Seq::empty(),
            },
        )
    } else if name == "country"@ {
        Some(
            match p.geo {
                Some(g) => g.code@,
                None => Seq::empty(),
            },
        )
    } else if name == "asn"@ {
        Some(
            match p.asn {
                Some(a) => text::decimal(a.number as nat),
                None => Seq::empty(),
            },
        )
    } else if name == "asn_org"@ {
        Some(
            match p.asn {
                Some(a) => match a.org {
                    Some(o) => o@,
                    None => Seq::empty(),
                },
                None => Seq::empty(),
            },
        )
    } else if name == "duration"@ {
        Some(f.resp_time@)
    } else if name == "error_rate"@ {
        Some(f.error_rate@)
    } else {
        None
    }
}

proof fn lemma_names_without_brace(keys: Seq<Proto>)
    ensures
        !names_joined(keys, '|').contains('{'),
    decreases keys.len(),
{
    reveal_strlit("HTTP");
    reveal_strlit("HTTPS");
    reveal_strlit("SOCKS4");
    reveal_strlit("SOCKS5");
    reveal_strlit("CONNECT:80");
    reveal_strlit("CONNECT:25");
    let s = names_joined(keys, '|');
    if keys.len() > 1 {
        lemma_names_without_brace(keys.drop_last());
        let before = names_joined(keys.drop_last(), '|');
        if s.contains('{') {
            let k = choose|k: int| 0 <= k < s.len() && s[k] == '{';
            if k < before.len() {
                assert(before[k] == '{');
            } else if k > before.len() {
                assert(keys.last().name()[k - before.len() - 1] == '{');
            }
        }
    }
}

proof fn lemma_plain_without_brace(s: Seq<char>)
    requires
        addr::plain(s),
    ensures
        !s.contains('{'),
{
    if s.contains('{') {
        let k = choose|k: int| 0 <= k < s.len() && s[k] == '{';
        assert(addr::is_addr_char(s[k]));
    }
}

/// What goes in place of each token holds no brace, where none stands in what comes from elsewhere.
proof fn lemma_details_without_brace(p: Proxy)
    ensures
        !addr::socket_text(p.host, p.port).contains('{'),
        !p.host.text().contains('{'),
        !text::decimal(p.port as nat).contains('{'),
        !scheme_of(p.types).contains('{'),
        !names_joined(p.types.key_seq(), '|').contains('{'),
        !anon_of(p.types).contains('{'),
        !asn_number(p).contains('{'),
{
    addr::law_address_text_is_plain(p.host);
    lemma_plain_without_brace(p.host.text());
    text::lemma_decimal_digits(p.port as nat);
    let d = text::decimal(p.port as nat);
    if d.contains('{') {
        let k = choose|k: int| 0 <= k < d.len() && d[k] == '{';
        assert(text::is_digit(d[k]));
    }
    let s = addr::socket_text(p.host, p.port);
    reveal_strlit("]:");
    if s.contains('{') {
        let k = choose|k: int| 0 <= k < s.len() && s[k] == '{';
        let h = p.host.text();
        match p.host {
            addr::IpAddr::V4(_) => {
                if k < h.len() {
                    assert(h[k] == '{');
                } else if k > h.len() {
                    assert(d[k - h.len() - 1] == '{');
                }
            },
            addr::IpAddr::V6(_) => {
                if 1 <= k < h.len() + 1 {
                    assert(h[k - 1] == '{');
                } else if k > h.len() + 2 {
                    assert(d[k - h.len() - 3] == '{');
                }
            },
        }
    }
    reveal_strlit("socks5");
    reveal_strlit("socks4");
    reveal_strlit("http");
    reveal_strlit("");
    reveal_strlit("Transparent");
    reveal_strlit("Anonymous");
    reveal_strlit("High");
    lemma_names_without_brace(p.types.key_seq());
    if let Some(a) = p.asn {
        text::lemma_decimal_digits(a.number as nat);
        let n = text::decimal(a.number as nat);
        if n.contains('{') {
            let k = choose|k: int| 0 <= k < n.len() && n[k] == '{';
            assert(text::is_digit(n[k]));
        }
    }
}

proof fn lemma_tokens_are_names()
    ensures
        "{{proxy}}"@ == braced("proxy"@),
        "{{host}}"@ == braced("host"@),
        "{{port}}"@ == braced("port"@),
        "{{scheme}}"@ == braced("scheme"@),
        "{{protocols}}"@ == braced("protocols"@),
        "{{anon}}"@ == braced("anon"@),
        "{{country}}"@ == braced("country"@),
        "{{asn}}"@ == braced("asn"@),
        "{{asn_org}}"@ == braced("asn_org"@),
        "{{duration}}"@ == braced("duration"@),
        "{{error_rate}}"@ == braced("error_rate"@),
        is_name("proxy"@),
        is_name("host"@),
        is_name("port"@),
        is_name("scheme"@),
        is_name("protocols"@),
        is_name("anon"@),
        is_name("country"@),
        is_name("asn"@),
        is_name("asn_org"@),
        is_name("duration"@),
        is_name("error_rate"@),
        "proxy"@.len() == 5 && "proxy"@[0] == 'p',
        "host"@.len() == 4 && "host"@[0] == 'h',
        "port"@.len() == 4 && "port"@[0] == 'p',
        "scheme"@.len() == 6,
        "protocols"@.len() == 9,
        "anon"@.len() == 4 && "anon"@[0] == 'a',
        "country"@.len() == 7 && "country"@[0] == 'c',
        "asn"@.len() == 3,
        "asn_org"@.len() == 7 && "asn_org"@[0] == 'a',
        "duration"@.len() == 8,
        "error_rate"@.len() == 10,
{
    reveal_strlit("{{proxy}}");
    reveal_strlit("{{host}}");
    reveal_strlit("{{port}}");
    reveal_strlit("{{scheme}}");
    reveal_strlit("{{protocols}}");
    reveal_strlit("{{anon}}");
    reveal_strlit("{{country}}");
    reveal_strlit("{{asn}}");
    reveal_strlit("{{asn_org}}");
    reveal_strlit("{{duration}}");
    reveal_strlit("{{error_rate}}");
    reveal_strlit("proxy");
    reveal_strlit("host");
    reveal_strlit("port");
    reveal_strlit("scheme");
    reveal_strlit("protocols");
    reveal_strlit("anon");
    reveal_strlit("country");
    reveal_strlit("asn");
    reveal_strlit("asn_org");
    reveal_strlit("duration");
    reveal_strlit("error_rate");
    assert("{{proxy}}"@ =~= braced("proxy"@));
    assert("{{host}}"@ =~= braced("host"@));
    assert("{{port}}"@ =~= braced("port"@));
    assert("{{scheme}}"@ =~= braced("scheme"@));
    assert("{{protocols}}"@ =~= braced("protocols"@));
    assert("{{anon}}"@ =~= braced("anon"@));
    assert("{{country}}"@ =~= braced("country"@));
    assert("{{asn}}"@ =~= braced("asn"@));
    assert("{{asn_org}}"@ =~= braced("asn_org"@));
    assert("{{duration}}"@ =~= braced("duration"@));
    assert("{{error_rate}}"@ =~= braced("error_rate"@));
}

/// In a template each known token gives exactly the detail that it names, and a token that is not
/// known stays; what stands before it stays, and what follows is treated by itself. So it is of every
/// token of a template in turn, wherever it stands.
pub proof fn law_each_token_gives_its_own_detail(
    pre: Seq<char>,
    name: Seq<char>,
    post: Seq<char>,
    p: Proxy,
    f: Figures,
)
    requires
        !pre.contains('{'),
        is_name(name),
        detail(name, p, f) matches Some(d) ==> !d.contains('{'),
    ensures
        filled(pre + braced(name) + post, p, f) == pre + (match detail(name, p, f) {
            Some(d) => d,
            None => braced(name),
        }) + filled(post, p, f),
        filled(pre, p, f) == pre,
{
    lemma_tokens_are_names();
    reveal_strlit("");
    reveal_strlit("]:");
    assert(""@ =~= Seq::<char>::empty());
    assert("]:"@ =~= seq![']', ':']);
    let by = seq![
        addr::socket_text(p.host, p.port),
        p.host.text(),
        text::decimal(p.port as nat),
        scheme_of(p.types),
        names_joined(p.types.key_seq(), '|'),
        anon_of(p.types),
        country_code(p),
        asn_number(p),
        asn_owner(p),
        f.resp_time@,
        f.error_rate@,
    ];
    let names = seq![
        "proxy"@,
        "host"@,
        "port"@,
        "scheme"@,
        "protocols"@,
        "anon"@,
        "country"@,
        "asn"@,
        "asn_org"@,
        "duration"@,
        "error_rate"@,
    ];
    lemma_filled_is_steps(pre + braced(name) + post, p, f, names, by);
    lemma_filled_is_steps(post, p, f, names, by);
    lemma_filled_is_steps(pre, p, f, names, by);
    assert forall|k: int| 0 <= k < 11 && #[trigger] names[k] == name implies !by[k].contains('{') by {
        assert(detail(name, p, f) == Some(by[k]));
    }
    lemma_steps(pre, braced(name), name, post, names, by, 11);
    assert(pre + Seq::<char>::empty() + Seq::<char>::empty() =~= pre);
    lemma_steps_on_nothing(names, by, 11);
    lemma_steps(pre, Seq::empty(), name, Seq::empty(), names, by, 11);
    lemma_standing(Seq::<char>::empty(), name, names, by, 11);
    lemma_standing_is_detail(name, p, f, names, by);
}

/// A text after the first `n` kinds of tokens were put in place.
spec fn steps(s: Seq<char>, names: Seq<Seq<char>>, by: Seq<Seq<char>>, n: nat) -> Seq<char>
    decreases n,
{
    if n == 0 {
        s
    } else {
        replaced(steps(s, names, by, (n - 1) as nat), braced(names[n - 1]), by[n - 1])
    }
}

/// What stands in place of a token after the first `n` kinds were put in place.
spec fn standing(
    mid: Seq<char>,
    name: Seq<char>,
    names: Seq<Seq<char>>,
    by: Seq<Seq<char>>,
    n: nat,
) -> Seq<char>
    decreases n,
{
    if n == 0 {
        mid
    } else {
        let before = standing(mid, name, names, by, (n - 1) as nat);
        if before == braced(name) && name == names[n - 1] {
            by[n - 1]
        } else {
            before
        }
    }
}

proof fn lemma_filled_is_steps(
    s: Seq<char>,
    p: Proxy,
    f: Figures,
    names: Seq<Seq<char>>,
    by: Seq<Seq<char>>,
)
    requires
        names == seq![
            "proxy"@,
            "host"@,
            "port"@,
            "scheme"@,
            "protocols"@,
            "anon"@,
            "country"@,
            "asn"@,
            "asn_org"@,
            "duration"@,
            "error_rate"@,
        ],
        by == seq![
            addr::socket_text(p.host, p.port),
            p.host.text(),
            text::decimal(p.port as nat),
            scheme_of(p.types),
            names_joined(p.types.key_seq(), '|'),
            anon_of(p.types),
            country_code(p),
            asn_number(p),
            asn_owner(p),
            f.resp_time@,
            f.error_rate@,
        ],
    ensures
        filled(s, p, f) == steps(s, names, by, 11),
{
    lemma_tokens_are_names();
    reveal_with_fuel(steps, 12);
}

proof fn lemma_steps(
    pre: Seq<char>,
    mid: Seq<char>,
    name: Seq<char>,
    post: Seq<char>,
    names: Seq<Seq<char>>,
    by: Seq<Seq<char>>,
    n: nat,
)
    requires
        n <= names.len() == by.len(),
        !pre.contains('{'),
        is_name(name),
        mid == braced(name) || !mid.contains('{'),
        forall|k: int| 0 <= k < names.len() ==> is_name(#[trigger] names[k]),
        forall|k: int|
            0 <= k < names.len() && #[trigger] names[k] == name ==> !by[k].contains('{'),
    ensures
        steps(pre + mid + post, names, by, n) == pre + standing(mid, name, names, by, n) + steps(
            post,
            names,
            by,
            n,
        ),
        standing(mid, name, names, by, n) == braced(name) || !standing(
            mid,
            name,
            names,
            by,
            n,
        ).contains('{'),
    decreases n,
{
    if n > 0 {
        lemma_steps(pre, mid, name, post, names, by, (n - 1) as nat);
        lemma_replaced_once(
            pre,
            standing(mid, name, names, by, (n - 1) as nat),
            name,
            steps(post, names, by, (n - 1) as nat),
            names[n - 1],
            by[n - 1],
        );
    }
}

proof fn lemma_standing(
    mid: Seq<char>,
    name: Seq<char>,
    names: Seq<Seq<char>>,
    by: Seq<Seq<char>>,
    n: nat,
)
    requires
        !mid.contains('{'),
    ensures
        standing(mid, name, names, by, n) == mid,
    decreases n,
{
    if n > 0 {
        lemma_standing(mid, name, names, by, (n - 1) as nat);
        assert(braced(name)[0] == '{');
        assert(braced(name).contains('{'));
    }
}

proof fn lemma_steps_on_nothing(names: Seq<Seq<char>>, by: Seq<Seq<char>>, n: nat)
    ensures
        steps(Seq::empty(), names, by, n) == Seq::<char>::empty(),
    decreases n,
{
    if n > 0 {
        lemma_steps_on_nothing(names, by, (n - 1) as nat);
        let s = Seq::<char>::empty();
        let token = braced(names[n - 1]);
        assert forall|j: int| 0 <= j implies !(#[trigger] text::has_at(s, token, j)) by {}
        law_text_without_token_stays(s, token, by[n - 1]);
    }
}

proof fn lemma_standing_is_detail(
    name: Seq<char>,
    p: Proxy,
    f: Figures,
    names: Seq<Seq<char>>,
    by: Seq<Seq<char>>,
)
    requires
        names == seq![
            "proxy"@,
            "host"@,
            "port"@,
            "scheme"@,
            "protocols"@,
            "anon"@,
            "country"@,
            "asn"@,
            "asn_org"@,
            "duration"@,
            "error_rate"@,
        ],
        by == seq![
            addr::socket_text(p.host, p.port),
            p.host.text(),
            text::decimal(p.port as nat),
            scheme_of(p.types),
            names_joined(p.types.key_seq(), '|'),
            anon_of(p.types),
            country_code(p),
            asn_number(p),
            asn_owner(p),
            f.resp_time@,
            f.error_rate@,
        ],
    ensures
        standing(braced(name), name, names, by, 11) == (match detail(name, p, f) {
            Some(d) => d,
            None => braced(name),
        }),
{
    lemma_tokens_are_names();
    reveal_strlit("");
    reveal_strlit("]:");
    assert(""@ =~= Seq::<char>::empty());
    assert("]:"@ =~= seq![']', ':']);
    reveal_with_fuel(standing, 12);
}

/// A template that is the token of the address, of the host or of the port alone gives exactly that.
pub proof fn law_address_tokens_give_the_address(p: Proxy, f: Figures)
    ensures
        p.host is V4 ==> filled("{{proxy}}"@, p, f) == p.host.text() + seq![':'] + text::decimal(
            p.port as nat,
        ),
        p.host is V6 ==> filled("{{proxy}}"@, p, f) == seq!['['] + p.host.text() + seq![']', ':']
            + text::decimal(p.port as nat),
        filled("{{host}}"@, p, f) == p.host.text(),
        filled("{{port}}"@, p, f) == text::decimal(p.port as nat),
{
    lemma_tokens_are_names();
    lemma_details_without_brace(p);
    reveal_strlit("");
    assert(""@ =~= Seq::<char>::empty());
    reveal_strlit("]:");
    assert("]:"@ =~= seq![']', ':']);
    lemma_token_alone("proxy"@, p, f);
    lemma_token_alone("host"@, p, f);
    lemma_token_alone("port"@, p, f);
}

/// A template that is the token of the scheme alone gives exactly how a client dials the proxy.
pub proof fn law_scheme_token_gives_the_scheme(p: Proxy, f: Figures)
    ensures
        p.types.socks5 is Some ==> filled("{{scheme}}"@, p, f) == "socks5"@,
        p.types.socks5 is None && p.types.socks4 is Some ==> filled("{{scheme}}"@, p, f)
            == "socks4"@,
        p.types.socks5 is None && p.types.socks4 is None ==> filled("{{scheme}}"@, p, f) == "http"@,
{
    lemma_tokens_are_names();
    lemma_details_without_brace(p);
    reveal_strlit("");
    assert(""@ =~= Seq::<char>::empty());
    lemma_token_alone("scheme"@, p, f);
}

/// A template that is the token of the protocols or of the anonymity level alone gives exactly that;
/// nothing where no level is known.
pub proof fn law_protocol_tokens_give_what_is_spoken(p: Proxy, f: Figures)
    ensures
        filled("{{protocols}}"@, p, f) == names_joined(p.types.key_seq(), '|'),
        p.types.http matches Some(Some(l)) ==> filled("{{anon}}"@, p, f) == l.name(),
        !(p.types.http matches Some(Some(_))) ==> filled("{{anon}}"@, p, f) == Seq::<char>::empty(),
{
    lemma_tokens_are_names();
    lemma_details_without_brace(p);
    reveal_strlit("");
    assert(""@ =~= Seq::<char>::empty());
    lemma_token_alone("protocols"@, p, f);
    lemma_token_alone("anon"@, p, f);
}

/// A template that is the token of the country, of the network or of the network's owner alone gives
/// exactly that, where it holds no brace; nothing where it is unknown.
pub proof fn law_place_tokens_give_the_place(p: Proxy, f: Figures)
    ensures
        p.geo matches Some(g) ==> !g.code@.contains('{') ==> filled("{{country}}"@, p, f) == g.code@,
        p.geo is None ==> filled("{{country}}"@, p, f) == Seq::<char>::empty(),
        p.asn matches Some(a) ==> filled("{{asn}}"@, p, f) == text::decimal(a.number as nat),
        p.asn is None ==> filled("{{asn}}"@, p, f) == Seq::<char>::empty() && filled(
            "{{asn_org}}"@,
            p,
            f,
        ) == Seq::<char>::empty(),
        p.asn matches Some(a) ==> (a.org matches Some(o) ==> !o@.contains('{') ==> filled(
            "{{asn_org}}"@,
            p,
            f,
        ) == o@),
        p.asn matches Some(a) ==> a.org is None ==> filled("{{asn_org}}"@, p, f) == Seq::<
            char,
        >::empty(),
{
    lemma_tokens_are_names();
    lemma_details_without_brace(p);
    reveal_strlit("");
    assert(""@ =~= Seq::<char>::empty());
    lemma_token_alone("country"@, p, f);
    lemma_token_alone("asn"@, p, f);
    lemma_token_alone("asn_org"@, p, f);
}

/// A template that is the token of the response time or of the error rate alone gives exactly that
/// figure as it was written out, where it holds no brace.
pub proof fn law_figure_tokens_give_the_figures(p: Proxy, f: Figures)
    ensures
        !f.resp_time@.contains('{') ==> filled("{{duration}}"@, p, f) == f.resp_time@,
        !f.error_rate@.contains('{') ==> filled("{{error_rate}}"@, p, f) == f.error_rate@,
{
    lemma_tokens_are_names();
    lemma_details_without_brace(p);
    reveal_strlit("");
    assert(""@ =~= Seq::<char>::empty());
    lemma_token_alone("duration"@, p, f);
    lemma_token_alone("error_rate"@, p, f);
}

proof fn lemma_token_alone(name: Seq<char>, p: Proxy, f: Figures)
    requires
        is_name(name),
    ensures
        detail(name, p, f) matches Some(d) ==> !d.contains('{') ==> filled(braced(name), p, f) == d,
{
    if let Some(d) = detail(name, p, f) {
        if !d.contains('{') {
            let none = Seq::<char>::empty();
            law_each_token_gives_its_own_detail(none, name, none, p, f);
            assert(none + braced(name) + none =~= braced(name));
            assert(none + d + none =~= d);
        }
    }
}

/// The names of protocols stand in their order with the separator between, and none at the ends.
pub proof fn law_names_are_parted_by_the_separator(keys: Seq<Proto>, p: Proto, sep: char)
    ensures
        names_joined(Seq::empty(), sep) == Seq::<char>::empty(),
        names_joined(seq![p], sep) == p.name(),
        keys.len() > 0 ==> names_joined(keys.push(p), sep) == names_joined(keys, sep) + seq![sep]
            + p.name(),
{
    assert(keys.push(p).drop_last() =~= keys);
}

/// How a client reaches a proxy is told by the versions of SOCKS that were confirmed, the later
/// first; any other proxy is reached by HTTP, whatever it tunnels.
pub proof fn law_scheme_is_how_a_client_dials(t: Types)
    ensures
        t.socks5 is Some ==> scheme_of(t) == "socks5"@,
        t.socks5 is None && t.socks4 is Some ==> scheme_of(t) == "socks4"@,
        t.socks5 is None && t.socks4 is None ==> scheme_of(t) == "http"@,
{
}

/// Without a template each format writes its own form: the address alone, the address with its
/// scheme, columns, or the object, each with a line end; in an array the objects stand with commas
/// between.
pub proof fn law_each_format_writes_its_form(
    p: Proxy,
    json: Seq<char>,
    f: Figures,
    started: bool,
)
    ensures
        item_of(Format::Default, None, started, p, json, f) == addr::socket_text(p.host, p.port)
            + seq!['\n'],
        item_of(Format::Txt, None, started, p, json, f) == addr::socket_text(p.host, p.port) + seq![
            '\n',
        ],
        item_of(Format::Json, None, started, p, json, f) == json + seq!['\n'],
        item_of(Format::Url, None, started, p, json, f) == (if p.types.socks5 is Some {
            "socks5"@
        } else if p.types.socks4 is Some {
            "socks4"@
        } else {
            "http"@
        }) + seq![':', '/', '/'] + addr::socket_text(p.host, p.port) + seq!['\n'],
        item_of(Format::Csv, None, started, p, json, f) == csv_text(p, f) + seq!['\n'],
        item_of(Format::JsonArray, None, true, p, json, f) == seq![','] + json,
        item_of(Format::JsonArray, None, false, p, json, f) == json,
{
    reveal_strlit("\n");
    reveal_strlit("://");
    reveal_strlit(",");
    assert("\n"@ =~= seq!['\n']);
    assert("://"@ =~= seq![':', '/', '/']);
    assert(","@ =~= seq![',']);
}

/// Only an array and columns have something before the first proxy, and only an array has something
/// behind the last; a template has neither, and gives a line for each proxy.
pub proof fn law_only_arrays_and_columns_are_framed(
    format: Format,
    tmpl: Seq<char>,
    p: Proxy,
    json: Seq<char>,
    f: Figures,
    started: bool,
)
    ensures
        prefix_of(Format::JsonArray, None) == Some("["@),
        prefix_of(Format::Csv, None) == Some(
            "host,port,protocols,anon,country,resp_time,error_rate\n"@,
        ),
        format != Format::JsonArray && format != Format::Csv ==> prefix_of(format, None) is None,
        suffix_of(Format::JsonArray, None) == Some("]\n"@),
        format != Format::JsonArray ==> suffix_of(format, None) is None,
        prefix_of(format, Some(tmpl)) is None,
        suffix_of(format, Some(tmpl)) is None,
        item_of(format, Some(tmpl), started, p, json, f) == filled(tmpl, p, f) + seq!['\n'],
{
    reveal_strlit("\n");
    assert("\n"@ =~= seq!['\n']);
}

/// The columns are the address, the port, the protocols, the anonymity level, the country, the
/// response time and the error rate, with commas between and nothing else.
pub proof fn law_columns_are_what_the_heading_names(p: Proxy, f: Figures)
    ensures
        csv_text(p, f) == p.host.text() + seq![','] + text::decimal(p.port as nat) + seq![',']
            + names_joined(p.types.key_seq(), '|') + seq![','] + (match p.types.http {
            Some(Some(l)) => l.name(),
            _ => Seq::empty(),
        }) + seq![','] + (match p.geo {
            Some(g) => g.code@,
            None => Seq::empty(),
        }) + seq![','] + f.resp_time@ + seq![','] + f.error_rate@,
{
    reveal_strlit(",");
    reveal_strlit("");
    assert(","@ =~= seq![',']);
    assert(""@ =~= Seq::<char>::empty());
}

/// What is shown of a run and what is saved of a proxy.
pub proof fn law_progress_and_saved_lines(c: Counts, avg: Seq<char>, json: Seq<char>, n: u64, path: Seq<char>)
    ensures
        progress_text(c, avg) == "checked "@ + text::decimal(c.total as nat) + " · working "@
            + text::decimal(c.working as nat) + " · avg "@ + avg + "s"@,
        saved_line(json) == json + seq!['\n'],
        report_text(n, path) == "wrote "@ + text::decimal(n as nat) + " proxies to "@ + path,
{
    reveal_strlit("\n");
    assert("\n"@ =~= seq!['\n']);
}

} // verus!

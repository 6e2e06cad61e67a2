//! Remembering proxies across runs.
use crate::addr;
use crate::addr::IpAddr;
use crate::addr_parse;
use crate::measure::Measure;
use crate::proxy;
use crate::proxy::Proxy;
use crate::text;
use crate::types::{AnonLevel, Duration, Error, Proto, Types};
use vstd::prelude::*;
use vstd::string::*;

verus! {

broadcast use vstd::seq_lib::group_seq_properties;

// ----- confirmed protocols as JSON

/// A protocol's name and its level's name, empty where no level is known.
pub type TypeEntry = (Seq<char>, Seq<char>);

/// The strings under two keys in an element of a JSON array, where they are strings.
pub type ReadEntry = (Option<Seq<char>>, Option<Seq<char>>);

/// What `serde_json::to_string` writes for an array of objects with these strings under two keys.
pub uninterp spec fn json_text(
    first: Seq<char>,
    second: Seq<char>,
    entries: Seq<TypeEntry>,
) -> Seq<char>;

/// What `serde_json::from_str` reads from a text as an array: the strings under two keys of each
/// element. `None` where the text is no JSON array.
pub uninterp spec fn json_entries(
    s: Seq<char>,
    first: Seq<char>,
    second: Seq<char>,
) -> Option<Seq<ReadEntry>>;

/// The contents of entries to be written.
pub open spec fn entry_views(v: Seq<(String, String)>) -> Seq<TypeEntry> {
    v.map_values(|e: (String, String)| (e.0@, e.1@))
}

/// Entries as they are read back.
pub open spec fn as_read(v: Seq<TypeEntry>) -> Seq<ReadEntry> {
    v.map_values(|e: TypeEntry| (Some(e.0), Some(e.1)))
}

/// The contents of entries that were read.
pub open spec fn read_views(v: Seq<(Option<String>, Option<String>)>) -> Seq<ReadEntry> {
    v.map_values(|e: (Option<String>, Option<String>)| (text::text_opt(e.0), text::text_opt(e.1)))
}

/// `serde_json::to_string` on an array of objects, which cannot fail: the text is a function of the
/// keys and the strings, it is `[]` for an empty array and for no other, and reading it under the
/// same keys, where they differ, gives the strings back.
#[verifier::external_body]
fn write_entries(first: &str, second: &str, entries: &Vec<(String, String)>) -> (out: String)
    ensures
        out@ == json_text(first@, second@, entry_views(entries@)),
        (entries@.len() == 0) == (out@ == "[]"@),
        first@ != second@ ==> json_entries(out@, first@, second@) == Some(
            as_read(entry_views(entries@)),
        ),
{
    let object = |e: &(String, String)| serde_json::Value::Object(
        [(first.to_owned(), e.0.clone().into()), (second.to_owned(), e.1.clone().into())].into_iter().collect(),
    );
    let array: Vec<serde_json::Value> = entries.iter().map(object).collect();
    serde_json::to_string(&array).unwrap()
}

/// `serde_json::from_str` for an array of values: what it reads under two keys is a function of the
/// text and the keys.
#[verifier::external_body]
fn read_entries(s: &str, first: &str, second: &str) -> (out: Option<
    Vec<(Option<String>, Option<String>)>,
>)
    ensures
        (match out {
            Some(v) => Some(read_views(v@)),
            None => None,
        }) == json_entries(s@, first@, second@),
{
    let array = serde_json::from_str::<Vec<serde_json::Value>>(s).ok()?;
    let own = |v: &serde_json::Value| v.as_str().map(str::to_owned);
    Some(array.iter().map(|v| (own(&v[first]), own(&v[second]))).collect())
}

/// The name of a level, empty where none is known.
pub open spec fn level_name(l: Option<AnonLevel>) -> Seq<char> {
    match l {
        Some(l) => l.name(),
        None => ""@,
    }
}

/// The entries for some protocols, in the order given.
pub open spec fn entries_of(t: Types, keys: Seq<Proto>) -> Seq<TypeEntry> {
    keys.map_values(|p: Proto| (p.name(), level_name(t.at(p)->0)))
}

/// The confirmed protocols as they are written.
pub open spec fn written_types(t: Types) -> Seq<char> {
    json_text("type"@, "level"@, entries_of(t, t.key_seq()))
}

/// The level that a name stands for; none where it is missing, empty or unknown.
pub open spec fn level_of(name: Option<Seq<char>>) -> Option<AnonLevel> {
    match name {
        Some(s) => if s.len() == 0 {
            None
        } else {
            AnonLevel::named(s)
        },
        None => None,
    }
}

/// The protocols that the first `n` entries confirm. Entries without a known protocol are left out,
/// and a later entry for the same protocol counts.
pub open spec fn types_upto(entries: Seq<ReadEntry>, n: nat) -> Types
    decreases n,
{
    if n == 0 {
        Types::none()
    } else {
        let before = types_upto(entries, (n - 1) as nat);
        let (name, level) = entries[n - 1];
        match name {
            Some(s) => match Proto::named(s) {
                Some(p) => before.with(p, level_of(level)),
                None => before,
            },
            None => before,
        }
    }
}

/// The protocols that a written text confirms; none where it is no JSON array.
pub open spec fn read_types(s: Seq<char>) -> Types {
    match json_entries(s, "type"@, "level"@) {
        Some(e) => types_upto(e, e.len()),
        None => Types::none(),
    }
}

/// Write the confirmed protocols as JSON. Reading the text gives them back, and it is `[]` exactly
/// where there are none.
pub fn types_to_json(types: &Types) -> (out: String)
    ensures
        out@ == written_types(*types),
        read_types(out@) == *types,
        (forall|p: Proto| !types.has(p)) == (out@ == "[]"@),
{
    let keys = types.keys();
    let mut entries: Vec<(String, String)> = Vec::new();
    let mut i: usize = 0;
    assert(entry_views(entries@) =~= entries_of(*types, keys@.take(0)));
    while i < keys.len()
        invariant
            i <= keys@.len(),
            keys@ == types.key_seq(),
            entry_views(entries@) == entries_of(*types, keys@.take(i as int)),
        decreases keys@.len() - i,
    {
        proof {
            lemma_key_is_confirmed(*types, 6, i as int);
        }
        let level = match types.get(keys[i]) {
            Some(Some(l)) => l.as_str().to_owned(),
            _ => "".to_owned(),
        };
        let ghost before = entries@;
        let ghost p = keys@[i as int];
        assert(level@ == level_name(types.at(p)->0));
        entries.push((keys[i].as_str().to_owned(), level));
        assert(entry_views(entries@) =~= entry_views(before).push(
            (p.name(), level_name(types.at(p)->0)),
        ));
        assert(keys@.take(i + 1) =~= keys@.take(i as int).push(p));
        assert(entries_of(*types, keys@.take(i + 1)) =~= entries_of(
            *types,
            keys@.take(i as int),
        ).push((p.name(), level_name(types.at(p)->0))));
        i += 1;
    }
    assert(keys@.take(i as int) =~= keys@);
    proof {
        law_types_survive_writing(*types);
        assert(entry_views(entries@).len() == entries@.len());
        if forall|p: Proto| !types.has(p) {
            lemma_no_keys(*types, 6);
        } else {
            lemma_some_key(*types);
        }
        reveal_strlit("type");
        reveal_strlit("level");
        assert("type"@.len() != "level"@.len());
    }
    write_entries("type", "level", &entries)
}

/// Read confirmed protocols from JSON.
pub fn types_from_json(s: &str) -> (out: Types)
    ensures
        out == read_types(s@),
{
    match read_entries(s, "type", "level") {
        None => Types::new(),
        Some(entries) => {
            assert(read_views(entries@).len() == entries@.len());
            types_from_entries(&entries)
        },
    }
}

/// The protocols that some entries confirm.
pub fn types_from_entries(entries: &Vec<(Option<String>, Option<String>)>) -> (out: Types)
    ensures
        out == types_upto(read_views(entries@), entries@.len()),
{
    let mut out = Types::new();
    let mut i: usize = 0;
    while i < entries.len()
        invariant
            i <= entries@.len(),
            out == types_upto(read_views(entries@), i as nat),
        decreases entries@.len() - i,
    {
        assert(read_views(entries@)[i as int] == (
            text::text_opt(entries@[i as int].0),
            text::text_opt(entries@[i as int].1),
        ));
        if let Some(name) = &entries[i].0 {
            if let Ok(p) = crate::types::parse_proto(name.as_str()) {
                let level = match &entries[i].1 {
                    Some(l) => if l.as_str().unicode_len() == 0 {
                        None
                    } else {
                        match crate::types::parse_lvl(l.as_str()) {
                            Ok(l) => Some(l),
                            Err(_) => None,
                        }
                    },
                    None => None,
                };
                out.insert(p, level);
            }
        }
        i += 1;
    }
    out
}

proof fn lemma_key_is_confirmed(t: Types, n: nat, i: int)
    requires
        n <= 6,
        0 <= i < t.keys_upto(n).len(),
    ensures
        t.has(t.keys_upto(n)[i]),
    decreases n,
{
    if n > 0 && i < t.keys_upto((n - 1) as nat).len() {
        lemma_key_is_confirmed(t, (n - 1) as nat, i);
    }
}

proof fn lemma_no_keys(t: Types, n: nat)
    requires
        forall|p: Proto| !t.has(p),
    ensures
        t.keys_upto(n).len() == 0,
    decreases n,
{
    if n > 0 {
        lemma_no_keys(t, (n - 1) as nat);
    }
}

proof fn lemma_some_key(t: Types)
    requires
        exists|p: Proto| t.has(p),
    ensures
        t.key_seq().len() > 0,
{
    reveal_with_fuel(Types::keys_upto, 7);
    let p = choose|p: Proto| t.has(p);
    let all = Proto::all();
    assert(p == all[0] || p == all[1] || p == all[2] || p == all[3] || p == all[4] || p == all[5]);
}

/// The part of some protocols that stands among the first `n` of all.
pub open spec fn first_types(t: Types, n: nat) -> Types {
    Types {
        http: if n > 0 { t.http } else { None },
        https: if n > 1 { t.https } else { None },
        socks4: if n > 2 { t.socks4 } else { None },
        socks5: if n > 3 { t.socks5 } else { None },
        connect80: if n > 4 { t.connect80 } else { None },
        connect25: if n > 5 { t.connect25 } else { None },
    }
}

proof fn lemma_level_survives(l: Option<AnonLevel>)
    ensures
        level_of(Some(level_name(l))) == l,
{
    reveal_strlit("");
    reveal_strlit("Transparent");
    reveal_strlit("Anonymous");
    reveal_strlit("High");
    if let Some(k) = l {
        crate::types::law_level_named_by_its_name(k);
    }
}

proof fn lemma_types_upto_prefix(a: Seq<ReadEntry>, b: Seq<ReadEntry>, n: nat)
    requires
        n <= a.len(),
        n <= b.len(),
        forall|i: int| 0 <= i < n ==> a[i] == b[i],
    ensures
        types_upto(a, n) == types_upto(b, n),
    decreases n,
{
    if n > 0 {
        lemma_types_upto_prefix(a, b, (n - 1) as nat);
    }
}

proof fn lemma_types_survive(t: Types, n: nat)
    requires
        n <= 6,
    ensures
        types_upto(as_read(entries_of(t, t.keys_upto(n))), t.keys_upto(n).len()) == first_types(t, n),
    decreases n,
{
    if n > 0 {
        let m = (n - 1) as nat;
        lemma_types_survive(t, m);
        let p = Proto::all()[m as int];
        let before = as_read(entries_of(t, t.keys_upto(m)));
        let now = as_read(entries_of(t, t.keys_upto(n)));
        if t.has(p) {
            let k = t.keys_upto(m).len();
            assert(now.len() == k + 1);
            assert forall|i: int| 0 <= i < k implies before[i] == now[i] by {
                assert(t.keys_upto(n)[i] == t.keys_upto(m)[i]);
            }
            lemma_types_upto_prefix(before, now, k);
            crate::types::law_proto_named_by_its_name(p);
            lemma_level_survives(t.at(p)->0);
            assert(now[k as int] == (Some(p.name()), Some(level_name(t.at(p)->0))));
            assert(types_upto(now, k + 1) == types_upto(now, k).with(p, t.at(p)->0));
        }
    }
}

/// Protocols that are written as entries and read from them are the same again.
pub proof fn law_types_survive_writing(t: Types)
    ensures
        types_upto(as_read(entries_of(t, t.key_seq())), t.key_seq().len()) == t,
{
    lemma_types_survive(t, 6);
}

// ----- the store in memory

/// What is remembered of a proxy.
#[derive(Clone, Copy, Debug, PartialEq, Eq, Structural)]
pub struct Record {
    pub types: Types,
    pub requests: u32,
    pub errors: u32,
    pub error_rate: Measure,
    /// The smoothed rate of success.
    pub ewma_success: Measure,
    /// The smoothed response time, in seconds.
    pub avg_latency: Measure,
    /// How many checks found it working.
    pub uptime_checks: u64,
}

/// The measures of a record after a check, as worked out by whoever does the arithmetic: the new
/// sample weighs three tenths and the past seven, and the error rate is over all requests.
#[derive(Clone, Copy, Debug, PartialEq, Eq, Structural)]
pub struct Blended {
    pub success: Measure,
    pub latency: Measure,
    pub error_rate: Measure,
}

/// The address that a proxy is remembered by.
pub type Key = (IpAddr, u16);

/// A sum that stays at the greatest number.
pub open spec fn capped_sum(a: u32, b: u32) -> u32 {
    if a + b > u32::MAX {
        u32::MAX
    } else {
        (a + b) as u32
    }
}

/// What is remembered of a proxy that was checked for the first time: the check itself.
pub open spec fn seeded(p: Proxy, b: Blended) -> Record {
    Record {
        types: p.types,
        requests: p.requests,
        errors: p.errors,
        error_rate: b.error_rate,
        ewma_success: Measure {
            bits: if proxy::works(p) {
                0x3FF0_0000_0000_0000u64
            } else {
                0
            },
        },
        avg_latency: p.avg_resp_time,
        uptime_checks: if proxy::works(p) {
            1
        } else {
            0
        },
    }
}

/// What is remembered of a proxy after a further check. A check that confirmed nothing leaves the
/// protocols, and one without a response time leaves the response time.
pub open spec fn folded(r: Record, p: Proxy, b: Blended) -> Record {
    Record {
        types: if proxy::works(p) {
            p.types
        } else {
            r.types
        },
        requests: capped_sum(r.requests, p.requests),
        errors: capped_sum(r.errors, p.errors),
        error_rate: b.error_rate,
        ewma_success: b.success,
        avg_latency: if p.avg_resp_time.above(Measure { bits: 0 }) {
            b.latency
        } else {
            r.avg_latency
        },
        uptime_checks: if proxy::works(p) && r.uptime_checks < u64::MAX {
            (r.uptime_checks + 1) as u64
        } else {
            r.uptime_checks
        },
    }
}

/// Where an address stands among the records, from the `i`th on; the length where it is missing.
pub open spec fn record_at(s: Seq<(Key, Record)>, k: Key, i: int) -> int
    decreases s.len() - i,
{
    if i < 0 || i >= s.len() {
        s.len() as int
    } else if s[i].0 == k {
        i
    } else {
        record_at(s, k, i + 1)
    }
}

/// What is remembered of an address.
pub open spec fn recorded(s: Seq<(Key, Record)>, k: Key) -> Option<Record> {
    let i = record_at(s, k, 0);
    if i < s.len() {
        Some(s[i].1)
    } else {
        None
    }
}

/// The records after a check of a proxy.
pub open spec fn upserted(s: Seq<(Key, Record)>, p: Proxy, b: Blended) -> Seq<(Key, Record)> {
    let k = (p.host, p.port);
    let i = record_at(s, k, 0);
    if i < s.len() {
        s.update(i, (k, folded(s[i].1, p, b)))
    } else {
        s.push((k, seeded(p, b)))
    }
}

/// Whether some proxies are those that the records remember, in order.
pub open spec fn restores(out: Seq<Proxy>, s: Seq<(Key, Record)>) -> bool {
    &&& out.len() == s.len()
    &&& forall|i: int|
        0 <= i < s.len() ==> restored_from(#[trigger] out[i], s[i])
}

/// Whether a proxy is the one that a record remembers.
pub open spec fn restored_from(p: Proxy, r: (Key, Record)) -> bool {
    proxy::is_restored(
        p,
        r.0.0,
        r.0.1,
        r.1.types,
        r.1.requests,
        r.1.errors,
        r.1.error_rate,
        r.1.avg_latency,
        Some(r.1.ewma_success),
    )
}

/// Something that remembers proxies across runs.
pub trait Store {
    /// Fold the outcome of a check into what is remembered of the proxy.
    fn upsert(&mut self, proxy: &Proxy, blended: Blended) -> (out: Result<(), Error>);

    /// Every proxy that is remembered.
    fn load(&self) -> (out: Result<Vec<Proxy>, Error>);
}

/// A store that lasts as long as the process.
#[derive(Debug, PartialEq, Eq)]
pub struct MemoryStore {
    pub records: Vec<(Key, Record)>,
}

impl MemoryStore {
    /// An empty store.
    pub fn new() -> (out: MemoryStore)
        ensures
            out.records@ == Seq::<(Key, Record)>::empty(),
    {
        MemoryStore { records: Vec::new() }
    }

    fn find(&self, host: IpAddr, port: u16) -> (at: usize)
        ensures
            at == record_at(self.records@, (host, port), 0),
            at <= self.records@.len(),
    {
        let mut i: usize = 0;
        while i < self.records.len()
            invariant
                i <= self.records@.len(),
                record_at(self.records@, (host, port), 0) == record_at(
                    self.records@,
                    (host, port),
                    i as int,
                ),
            decreases self.records@.len() - i,
        {
            let k = self.records[i].0;
            if k.0 == host && k.1 == port {
                return i;
            }
            i += 1;
        }
        i
    }

    /// What is remembered of an address.
    pub fn get(&self, host: IpAddr, port: u16) -> (out: Option<Record>)
        ensures
            out == recorded(self.records@, (host, port)),
    {
        let i: usize = self.find(host, port);
        if i < self.records.len() {
            Some(self.records[i].1)
        } else {
            None
        }
    }
}

fn add_capped(a: u32, b: u32) -> (out: u32)
    ensures
        out == capped_sum(a, b),
{
    if a > u32::MAX - b {
        u32::MAX
    } else {
        a + b
    }
}

impl Store for MemoryStore {
    /// Fold the outcome of a check into what is remembered of the proxy. It never fails.
    fn upsert(&mut self, proxy: &Proxy, blended: Blended) -> (out: Result<(), Error>)
        ensures
            out is Ok,
            final(self).records@ == upserted(old(self).records@, *proxy, blended),
    {
        let working = proxy.is_working();
        let i: usize = self.find(proxy.host, proxy.port);
        if i < self.records.len() {
            let r = self.records[i].1;
            let timed = proxy.avg_resp_time.exceeds(Measure::zero());
            let next = Record {
                types: if working { proxy.types } else { r.types },
                requests: add_capped(r.requests, proxy.requests),
                errors: add_capped(r.errors, proxy.errors),
                error_rate: blended.error_rate,
                ewma_success: blended.success,
                avg_latency: if timed { blended.latency } else { r.avg_latency },
                uptime_checks: if working && r.uptime_checks < u64::MAX {
                    r.uptime_checks + 1
                } else {
                    r.uptime_checks
                },
            };
            self.records.set(i, ((proxy.host, proxy.port), next));
        } else {
            let first = Record {
                types: proxy.types,
                requests: proxy.requests,
                errors: proxy.errors,
                error_rate: blended.error_rate,
                ewma_success: if working { Measure::one() } else { Measure::zero() },
                avg_latency: proxy.avg_resp_time,
                uptime_checks: if working { 1 } else { 0 },
            };
            self.records.push(((proxy.host, proxy.port), first));
        }
        Ok(())
    }

    /// Every proxy that is remembered, oldest first. It never fails.
    fn load(&self) -> (out: Result<Vec<Proxy>, Error>)
        ensures
            out matches Ok(v) && restores(v@, self.records@),
    {
        let mut out: Vec<Proxy> = Vec::new();
        let mut i: usize = 0;
        while i < self.records.len()
            invariant
                i <= self.records@.len(),
                out@.len() == i,
                forall|j: int| 0 <= j < i ==> restored_from(#[trigger] out@[j], self.records@[j]),
            decreases self.records@.len() - i,
        {
            let k = self.records[i].0;
            let r = self.records[i].1;
            out.push(
                Proxy::restored(
                    k.0,
                    k.1,
                    r.types,
                    r.requests,
                    r.errors,
                    r.error_rate,
                    r.avg_latency,
                    Some(r.ewma_success),
                ),
            );
            i += 1;
        }
        Ok(out)
    }
}

proof fn lemma_record_at(s: Seq<(Key, Record)>, k: Key, i: int)
    requires
        0 <= i <= s.len(),
    ensures
        i <= record_at(s, k, i) <= s.len(),
        record_at(s, k, i) < s.len() ==> s[record_at(s, k, i)].0 == k,
        forall|j: int| i <= j < record_at(s, k, i) ==> (#[trigger] s[j]).0 != k,
    decreases s.len() - i,
{
    if i < s.len() && s[i].0 != k {
        lemma_record_at(s, k, i + 1);
    }
}

proof fn lemma_record_is(s: Seq<(Key, Record)>, k: Key, i: int, at: int)
    requires
        0 <= i <= at < s.len(),
        s[at].0 == k,
        forall|j: int| i <= j < at ==> (#[trigger] s[j]).0 != k,
    ensures
        record_at(s, k, i) == at,
    decreases at - i,
{
    if i < at {
        lemma_record_is(s, k, i + 1, at);
    }
}

/// What a check wrote is what is read of the proxy's address afterwards: the first check as it is,
/// a further one folded into what was known.
pub proof fn law_store_reads_what_was_written(s: Seq<(Key, Record)>, p: Proxy, b: Blended)
    ensures
        recorded(upserted(s, p, b), (p.host, p.port)) == Some(
            match recorded(s, (p.host, p.port)) {
                Some(r) => folded(r, p, b),
                None => seeded(p, b),
            },
        ),
{
    let k = (p.host, p.port);
    lemma_record_at(s, k, 0);
    let now = upserted(s, p, b);
    let i = record_at(s, k, 0);
    lemma_record_is(now, k, 0, i);
}

/// A check of one proxy leaves what is remembered of any other address.
pub proof fn law_store_keeps_other_addresses(s: Seq<(Key, Record)>, p: Proxy, b: Blended, other: Key)
    requires
        other != (p.host, p.port),
    ensures
        recorded(upserted(s, p, b), other) == recorded(s, other),
{
    let k = (p.host, p.port);
    lemma_record_at(s, k, 0);
    lemma_record_at(s, other, 0);
    let now = upserted(s, p, b);
    lemma_record_at(now, other, 0);
    let a = record_at(s, other, 0);
    let c = record_at(now, other, 0);
    if a < s.len() {
        assert(now[a] == s[a]);
        if c < a {
            assert(now[c].0 == s[c].0);
        }
    } else if c < s.len() {
        assert(now[c].0 == s[c].0);
    }
}

/// A check that failed does not make a store forget what a proxy was found to speak, nor how fast
/// it was.
pub proof fn law_failing_check_keeps_types(r: Record, p: Proxy, b: Blended)
    requires
        !proxy::works(p),
        !p.avg_resp_time.above(Measure { bits: 0 }),
    ensures
        folded(r, p, b).types == r.types,
        folded(r, p, b).avg_latency == r.avg_latency,
        folded(r, p, b).uptime_checks == r.uptime_checks,
{
}

/// Each address is remembered once, whatever is checked.
pub proof fn law_store_holds_each_address_once(s: Seq<(Key, Record)>, p: Proxy, b: Blended)
    requires
        forall|i: int, j: int| 0 <= i < j < s.len() ==> (#[trigger] s[i]).0 != (#[trigger] s[j]).0,
    ensures
        forall|i: int, j: int|
            0 <= i < j < upserted(s, p, b).len() ==> (#[trigger] upserted(s, p, b)[i]).0 != (
            #[trigger] upserted(s, p, b)[j]).0,
{
    lemma_record_at(s, (p.host, p.port), 0);
}

// ----- what the other stores need

/// The wait before each repetition of a write that met with another writer, in milliseconds.
pub open spec fn retry_delay(n: int) -> u64 {
    if n == 0 {
        10
    } else if n == 1 {
        25
    } else if n == 2 {
        50
    } else {
        100
    }
}

/// How many times a write that met with another writer is repeated.
pub const MAX_RETRIES: usize = 4;

/// How an SQLite operation failed.
#[derive(Clone, Copy, Debug, PartialEq, Eq, Structural)]
pub enum SqliteFault {
    /// Another connection holds the database.
    DatabaseBusy,
    /// Another statement of this connection holds a table.
    DatabaseLocked,
    /// Anything else.
    Other,
}

/// Whether a failure is only that another writer was there.
pub fn is_retryable_sqlite_contention(fault: SqliteFault) -> (yes: bool)
    ensures
        yes == (fault != SqliteFault::Other),
{
    fault != SqliteFault::Other
}

/// What to do after a failure.
#[derive(Clone, Copy, Debug, PartialEq, Eq, Structural)]
pub enum AfterFault {
    /// Wait, then try again.
    RetryIn(Duration),
    /// Report the failure.
    Report,
}

/// The repetitions of one write so far.
#[derive(Clone, Copy, Debug, PartialEq, Eq, Structural)]
pub struct ContentionRetry {
    pub retries: usize,
}

/// What follows the failure of a write that was repeated `retries` times.
pub open spec fn after_fault(retries: nat, fault: SqliteFault) -> AfterFault {
    if fault != SqliteFault::Other && retries < MAX_RETRIES {
        AfterFault::RetryIn(Duration { nanos: (retry_delay(retries as int) * 1_000_000) as u128 })
    } else {
        AfterFault::Report
    }
}

impl ContentionRetry {
    /// A write at its start.
    pub fn new() -> (out: ContentionRetry)
        ensures
            out.retries == 0,
    {
        ContentionRetry { retries: 0 }
    }

    /// Take in a failure.
    pub fn after_error(&mut self, fault: SqliteFault) -> (out: AfterFault)
        requires
            old(self).retries <= MAX_RETRIES,
        ensures
            out == after_fault(old(self).retries as nat, fault),
            final(self).retries <= MAX_RETRIES,
            final(self).retries == old(self).retries + (if out is RetryIn {
                1int
            } else {
                0int
            }),
    {
        if is_retryable_sqlite_contention(fault) && self.retries < MAX_RETRIES {
            let millis: u64 = if self.retries == 0 {
                10
            } else if self.retries == 1 {
                25
            } else if self.retries == 2 {
                50
            } else {
                100
            };
            self.retries += 1;
            AfterFault::RetryIn(Duration::from_millis(millis))
        } else {
            AfterFault::Report
        }
    }
}

/// How often a write is tried where each try fails in the way listed, up to the first that is
/// reported; the write succeeds at the end of the list.
pub open spec fn tries_made(retries: nat, faults: Seq<SqliteFault>) -> nat
    decreases faults.len(),
{
    if faults.len() == 0 || after_fault(retries, faults[0]) == AfterFault::Report {
        1
    } else {
        1 + tries_made(retries + 1, faults.skip(1))
    }
}

/// A write is tried at most five times, and once where it fails for any other reason than another
/// writer.
pub proof fn law_write_tries_are_bounded(retries: nat, faults: Seq<SqliteFault>)
    requires
        retries <= MAX_RETRIES,
    ensures
        tries_made(retries, faults) <= MAX_RETRIES + 1 - retries,
        faults.len() > 0 && faults[0] == SqliteFault::Other ==> tries_made(retries, faults) == 1,
    decreases faults.len(),
{
    if faults.len() > 0 && after_fault(retries, faults[0]) != AfterFault::Report {
        law_write_tries_are_bounded(retries + 1, faults.skip(1));
    }
}

/// What a store writes of a proxy that was checked.
#[derive(Debug, PartialEq, Eq)]
pub struct StoreRow {
    pub host: String,
    pub port: u16,
    pub types_json: String,
    pub requests: u32,
    pub errors: u32,
    /// Whether the check found it working: the sample of success, and what uptime grows by.
    pub working: bool,
    pub latency: Measure,
}

/// What a store writes of a proxy that was checked. The protocols are `[]` exactly where the check
/// confirmed none, by which a store knows to keep those it has. The host and the protocols are read
/// back as they were.
pub fn store_row(proxy: &Proxy) -> (out: StoreRow)
    ensures
        out.host@ == proxy.host.text(),
        addr_parse::ip_of(out.host@) == Some(proxy.host),
        out.port == proxy.port,
        out.types_json@ == written_types(proxy.types),
        read_types(out.types_json@) == proxy.types,
        proxy::works(*proxy) == (out.types_json@ != "[]"@),
        out.requests == proxy.requests,
        out.errors == proxy.errors,
        out.working == proxy::works(*proxy),
        out.latency == proxy.avg_resp_time,
{
    proof {
        addr_parse::law_written_address_is_read_back(proxy.host);
    }
    StoreRow {
        host: proxy.host.to_text(),
        port: proxy.port,
        types_json: types_to_json(&proxy.types),
        requests: proxy.requests,
        errors: proxy.errors,
        working: proxy.is_working(),
        latency: proxy.avg_resp_time,
    }
}

/// The version of the table that SQLite keeps.
pub const SCHEMA_VERSION: i64 = 1;

/// Whether a database of this version still lacks the table.
pub fn needs_migration(version: i64) -> (yes: bool)
    ensures
        yes == (version < SCHEMA_VERSION),
{
    version < SCHEMA_VERSION
}

/// A proxy from a row of the table. The numbers are taken to their width as stored; a row whose
/// host is no address is left out.
pub fn proxy_from_row(
    host: &str,
    port: i64,
    types_json: &str,
    requests: i64,
    errors: i64,
    error_rate: Measure,
    avg_latency: Measure,
    ewma: Measure,
) -> (out: Option<Proxy>)
    ensures
        match addr_parse::ip_of(host@) {
            None => out is None,
            Some(h) => out matches Some(p) && proxy::is_restored(
                p,
                h,
                port as u16,
                read_types(types_json@),
                requests as u32,
                errors as u32,
                error_rate,
                avg_latency,
                Some(ewma),
            ),
        },
{
    match addr_parse::parse_ip(host) {
        None => None,
        Some(h) => Some(
            Proxy::restored(
                h,
                #[verifier::truncate]
                (port as u16),
                types_from_json(types_json),
                #[verifier::truncate]
                (requests as u32),
                #[verifier::truncate]
                (errors as u32),
                error_rate,
                avg_latency,
                Some(ewma),
            ),
        ),
    }
}

/// The key of the set of proxies in Redis.
pub const SET_KEY: &'static str = "proxybroker:proxies";

/// The key of the mark that a Redis database holds.
pub const SCHEMA_KEY: &'static str = "proxybroker:schema";

/// What Redis runs to fold a check into what it holds of a proxy: the new sample weighs three
/// tenths and the past seven, a check that confirmed nothing leaves the protocols, and one without
/// a response time leaves the response time. Its keys are that of the proxy's hash and that of the
/// set of proxies; its arguments are the host, the port, the protocols, the sample of success, what
/// uptime grows by, the response time, the time, the requests and the errors.
pub const UPSERT_LUA: &'static str = r#"
local h = redis.call('HGETALL', KEYS[1])
local cur = {}
for i=1,#h,2 do cur[h[i]] = h[i+1] end
local function num(x) return tonumber(x) or 0 end
local first = (next(cur) == nil)
local sample, working, latency = tonumber(ARGV[4]), tonumber(ARGV[5]), tonumber(ARGV[6])
local ewma   = first and sample or (0.3*sample + 0.7*num(cur.ewma_success))
local avglat = first and latency or ((latency > 0) and (0.3*latency + 0.7*num(cur.avg_latency)) or num(cur.avg_latency))
local types  = (ARGV[3] ~= '[]') and ARGV[3] or (cur.types or ARGV[3])
redis.call('HSET', KEYS[1],
  'host', ARGV[1], 'port', ARGV[2], 'types', types,
  'requests', num(cur.requests) + tonumber(ARGV[8]),
  'errors',   num(cur.errors)   + tonumber(ARGV[9]),
  'ewma_success', ewma, 'avg_latency', avglat,
  'first_seen', first and ARGV[7] or (cur.first_seen or ARGV[7]),
  'last_seen', ARGV[7],
  'uptime_checks', num(cur.uptime_checks) + working)
redis.call('SADD', KEYS[2], ARGV[1] .. ':' .. ARGV[2])
return 1
"#;

/// The key of a proxy's hash in Redis.
pub open spec fn proxy_key_text(host: IpAddr, port: u16) -> Seq<char> {
    "proxybroker:proxy:"@ + addr::endpoint_text(host, port)
}

/// The key of a proxy's hash in Redis.
pub fn proxy_key(host: IpAddr, port: u16) -> (out: String)
    ensures
        out@ == proxy_key_text(host, port),
{
    let mut out = "proxybroker:proxy:".to_owned();
    out.append(addr::endpoint(host, port).as_str());
    out
}

/// The version of the layout that Redis keeps.
pub open spec fn redis_schema() -> Seq<char> {
    "1"@
}

/// What `{:?}` makes of a text.
pub uninterp spec fn debug_text(s: Seq<char>) -> Seq<char>;

/// The `Debug` form of a text, as `format!` gives it: a function of the text. Nothing more is said
/// of how characters are escaped.
#[verifier::external_body]
fn quoted(s: &str) -> (out: String)
    ensures
        out@ == debug_text(s@),
{
    format!("{s:?}")
}

/// The complaint about a database of another layout, the marks written as they are to be shown.
pub open spec fn mismatch_text(found: Seq<char>, expected: Seq<char>) -> Seq<char> {
    "redis store schema mismatch: found "@ + found + ", expected "@ + expected
        + " — wipe the proxybroker:* keys or point --state at a fresh database"@
}

/// The complaint about a database of another layout, the marks written as they are to be shown.
pub fn schema_mismatch(found: &str, expected: &str) -> (out: String)
    ensures
        out@ == mismatch_text(found@, expected@),
{
    let mut out = "redis store schema mismatch: found ".to_owned();
    out.append(found);
    out.append(", expected ");
    out.append(expected);
    out.append(" — wipe the proxybroker:* keys or point --state at a fresh database");
    assert(out@ =~= mismatch_text(found@, expected@));
    out
}

/// Whether a Redis database can be used, by the mark that it holds: one without a mark can, one
/// with another mark cannot.
pub fn check_redis_schema(existing: Option<&str>) -> (out: Result<(), Error>)
    ensures
        match existing {
            Some(v) => if v@ == redis_schema() {
                out is Ok
            } else {
                out matches Err(Error::Persist(m)) && m@ == mismatch_text(
                    debug_text(v@),
                    debug_text(redis_schema()),
                )
            },
            None => out is Ok,
        },
{
    if let Some(v) = existing {
        if !text::same_text(v, "1") {
            let found = quoted(v);
            let expected = quoted("1");
            return Err(Error::Persist(schema_mismatch(found.as_str(), expected.as_str())));
        }
    }
    Ok(())
}

/// Why a member of the set of proxies is left out.
#[derive(Clone, Copy, Debug, PartialEq, Eq, Structural)]
pub enum MemberFault {
    /// It has no colon.
    Malformed,
    /// What stands before its last colon is no address.
    Host,
    /// What stands behind its last colon is no port.
    Port,
}

/// The address and the port of a member of the set of proxies: what stands before and behind its
/// last colon, which is that of the port whatever the host.
pub open spec fn member_of(s: Seq<char>) -> Result<Key, MemberFault> {
    let n = text::rfind_from(s, ':', s.len() as int);
    if n == 0 {
        Err(MemberFault::Malformed)
    } else {
        match addr_parse::ip_of(s.take(n - 1)) {
            None => Err(MemberFault::Host),
            Some(ip) => match text::number(s.skip(n), 65535) {
                Ok(p) => Ok((ip, p as u16)),
                Err(_) => Err(MemberFault::Port),
            },
        }
    }
}

/// Read a member of the set of proxies.
pub fn read_member(s: &str) -> (out: Result<(IpAddr, u16), MemberFault>)
    ensures
        out == member_of(s@),
{
    let cs = text::chars_of(s);
    let n: usize = text::rfind_char(&cs, ':');
    if n == 0 {
        return Err(MemberFault::Malformed);
    }
    let host = text::string_of(&cs, 0, n - 1);
    let tail = text::string_of(&cs, n, cs.len());
    let digits = text::chars_of(tail.as_str());
    assert(digits@ =~= s@.skip(n as int));
    assert(host@ =~= s@.take(n - 1));
    match addr_parse::parse_ip(host.as_str()) {
        None => Err(MemberFault::Host),
        Some(ip) => match text::parse_number(&digits, 65535) {
            Ok(p) => Ok((ip, p as u16)),
            Err(_) => Err(MemberFault::Port),
        },
    }
}

/// A member made of the text of an address, a colon and the text of a port.
proof fn lemma_member_of(front: Seq<char>, tail: Seq<char>, host: IpAddr, port: u16)
    requires
        addr_parse::ip_of(front) == Some(host),
        text::number(tail, 65535) == Ok::<nat, text::NumberFault>(port as nat),
        forall|k: int| 0 <= k < tail.len() ==> #[trigger] tail[k] != ':',
    ensures
        member_of(front + seq![':'] + tail) == Ok::<Key, MemberFault>((host, port)),
{
    let s = front + seq![':'] + tail;
    text::lemma_rfind_behind(front, tail, ':', s.len() as int);
    assert(s.take(front.len() as int) =~= front);
    assert(s.skip(front.len() as int + 1) =~= tail);
}

/// The member by which a proxy stands in the set is read as its address and port.
pub proof fn law_member_is_read_back(host: IpAddr, port: u16)
    ensures
        member_of(addr::endpoint_text(host, port)) == Ok::<Key, MemberFault>((host, port)),
{
    text::lemma_decimal_digits(port as nat);
    text::law_number_of_decimal(port as nat, 65535);
    addr_parse::law_written_address_is_read_back(host);
    lemma_member_of(host.text(), text::decimal(port as nat), host, port);
}

/// The fields of a proxy's hash that are read: texts, and measures that are numbers there.
#[derive(Debug, PartialEq, Eq)]
pub struct RedisHash {
    pub types: Option<String>,
    pub requests: Option<String>,
    pub errors: Option<String>,
    pub avg_latency: Option<Measure>,
    pub ewma_success: Option<Measure>,
}

/// A count in text, nought where it is missing or no number.
pub open spec fn count_of(s: Option<Seq<char>>) -> u32 {
    match s {
        Some(t) => match text::number(t, u32::MAX as nat) {
            Ok(n) => n as u32,
            Err(_) => 0,
        },
        None => 0,
    }
}

fn read_count(s: &Option<String>) -> (out: u32)
    ensures
        out == count_of(text::text_opt(*s)),
{
    match s {
        Some(t) => {
            let cs = text::chars_of(t.as_str());
            match text::parse_number(&cs, u32::MAX as u64) {
                Ok(n) => n as u32,
                Err(_) => 0,
            }
        },
        None => 0,
    }
}

/// How many requests and errors a hash counts; the error rate is theirs.
pub fn redis_counts(hash: &RedisHash) -> (out: (u32, u32))
    ensures
        out.0 == count_of(text::text_opt(hash.requests)),
        out.1 == count_of(text::text_opt(hash.errors)),
{
    (read_count(&hash.requests), read_count(&hash.errors))
}

/// A proxy from its hash; none where the hash is missing. A field that is missing or no number
/// counts as nothing.
pub fn proxy_from_hash(
    host: IpAddr,
    port: u16,
    hash: Option<&RedisHash>,
    error_rate: Measure,
) -> (out: Option<Proxy>)
    ensures
        match hash {
            None => out is None,
            Some(h) => out matches Some(p) && proxy::is_restored(
                p,
                host,
                port,
                read_types(
                    match h.types {
                        Some(t) => t@,
                        None => "[]"@,
                    },
                ),
                count_of(text::text_opt(h.requests)),
                count_of(text::text_opt(h.errors)),
                error_rate,
                match h.avg_latency {
                    Some(m) => m,
                    None => Measure { bits: 0 },
                },
                h.ewma_success,
            ),
        },
{
    let h = match hash {
        Some(h) => h,
        None => {
            return None;
        },
    };
    let types = match &h.types {
        Some(t) => types_from_json(t.as_str()),
        None => types_from_json("[]"),
    };
    let avg = match h.avg_latency {
        Some(m) => m,
        None => Measure::zero(),
    };
    let (requests, errors) = redis_counts(h);
    Some(
        Proxy::restored(host, port, types, requests, errors, error_rate, avg, h.ewma_success),
    )
}

/// The first check of a proxy is remembered as it is: what it speaks, its counts and its response
/// time, and whether it worked as a success of one or nought.
pub proof fn law_first_check_is_remembered_as_it_is(p: Proxy, b: Blended)
    ensures
        seeded(p, b).types == p.types,
        seeded(p, b).requests == p.requests,
        seeded(p, b).errors == p.errors,
        seeded(p, b).error_rate == b.error_rate,
        seeded(p, b).avg_latency == p.avg_resp_time,
        proxy::works(p) ==> seeded(p, b).ewma_success.bits == 0x3FF0_0000_0000_0000u64 && seeded(
            p,
            b,
        ).uptime_checks == 1,
        !proxy::works(p) ==> seeded(p, b).ewma_success.bits == 0 && seeded(p, b).uptime_checks == 0,
{
}

/// A further check adds to the counts, up to the greatest there is, takes over what the proxy now
/// speaks where it works, and counts as uptime exactly there; the smoothed figures are those that
/// were worked out.
pub proof fn law_further_check_adds_to_what_is_known(r: Record, p: Proxy, b: Blended)
    ensures
        r.requests + p.requests <= u32::MAX ==> folded(r, p, b).requests == r.requests + p.requests,
        r.requests + p.requests > u32::MAX ==> folded(r, p, b).requests == u32::MAX,
        r.errors + p.errors <= u32::MAX ==> folded(r, p, b).errors == r.errors + p.errors,
        r.errors + p.errors > u32::MAX ==> folded(r, p, b).errors == u32::MAX,
        proxy::works(p) ==> folded(r, p, b).types == p.types,
        proxy::works(p) && r.uptime_checks < u64::MAX ==> folded(r, p, b).uptime_checks
            == r.uptime_checks + 1,
        !proxy::works(p) ==> folded(r, p, b).types == r.types && folded(r, p, b).uptime_checks
            == r.uptime_checks,
        p.avg_resp_time.above(Measure { bits: 0 }) ==> folded(r, p, b).avg_latency == b.latency,
        !p.avg_resp_time.above(Measure { bits: 0 }) ==> folded(r, p, b).avg_latency
            == r.avg_latency,
        folded(r, p, b).ewma_success == b.success,
        folded(r, p, b).error_rate == b.error_rate,
{
}

/// A proxy is restored from its own record, field by field, with nothing else known of it.
pub proof fn law_proxy_is_restored_from_its_record(p: Proxy, host: IpAddr, port: u16, r: Record)
    requires
        restored_from(p, ((host, port), r)),
    ensures
        p.host == host && p.port == port,
        p.types == r.types,
        p.requests == r.requests,
        p.errors == r.errors,
        p.error_rate == r.error_rate,
        p.avg_resp_time == r.avg_latency,
        p.ewma == Some(r.ewma_success),
        p.geo is None && p.asn is None && p.auth is None,
        p.probe_latency.bits == 0,
        !p.trusted,
{
}

/// One more entry confirms the protocol that it names, at the level that it names if that is known,
/// over what came before; an entry that names none changes nothing.
pub proof fn law_later_entry_counts(
    entries: Seq<ReadEntry>,
    p: Proto,
    level: Option<AnonLevel>,
    other: Seq<char>,
    any: Option<Seq<char>>,
)
    ensures
        types_upto(
            entries.push((Some(p.name()), Some(level_name(level)))),
            entries.len() + 1,
        ) == types_upto(entries, entries.len()).with(p, level),
        types_upto(entries.push((Some(p.name()), None)), entries.len() + 1) == types_upto(
            entries,
            entries.len(),
        ).with(p, None),
        types_upto(entries.push((None, any)), entries.len() + 1) == types_upto(
            entries,
            entries.len(),
        ),
        Proto::named(other) is None ==> types_upto(
            entries.push((Some(other), any)),
            entries.len() + 1,
        ) == types_upto(entries, entries.len()),
        types_upto(entries, 0) == Types::none(),
{
    let n = entries.len();
    crate::types::law_proto_named_by_its_name(p);
    lemma_level_survives(level);
    lemma_types_upto_prefix(entries, entries.push((Some(p.name()), Some(level_name(level)))), n);
    lemma_types_upto_prefix(entries, entries.push((Some(p.name()), None)), n);
    lemma_types_upto_prefix(entries, entries.push((None, any)), n);
    lemma_types_upto_prefix(entries, entries.push((Some(other), any)), n);
}

/// A level that is missing, empty or unknown is none.
pub proof fn law_unknown_level_is_none(s: Seq<char>)
    ensures
        level_of(None) is None,
        level_of(Some(Seq::<char>::empty())) is None,
        AnonLevel::named(s) is None ==> level_of(Some(s)) is None,
        level_name(None) == Seq::<char>::empty(),
{
    reveal_strlit("");
    assert(""@ =~= Seq::<char>::empty());
}

/// A write that meets with another writer is repeated four times, after 10, 25, 50 and 100
/// milliseconds; then, and after any other failure, the failure is reported.
pub proof fn law_contention_is_waited_out(fault: SqliteFault, n: nat)
    ensures
        fault != SqliteFault::Other ==> after_fault(0, fault) == AfterFault::RetryIn(
            Duration { nanos: 10_000_000 },
        ),
        fault != SqliteFault::Other ==> after_fault(1, fault) == AfterFault::RetryIn(
            Duration { nanos: 25_000_000 },
        ),
        fault != SqliteFault::Other ==> after_fault(2, fault) == AfterFault::RetryIn(
            Duration { nanos: 50_000_000 },
        ),
        fault != SqliteFault::Other ==> after_fault(3, fault) == AfterFault::RetryIn(
            Duration { nanos: 100_000_000 },
        ),
        n >= 4 ==> after_fault(n, fault) == AfterFault::Report,
        after_fault(n, SqliteFault::Other) == AfterFault::Report,
{
}

/// A write that always meets with another writer is tried five times in all.
pub proof fn law_busy_write_is_tried_five_times(faults: Seq<SqliteFault>)
    requires
        faults.len() >= 5,
        forall|k: int| 0 <= k < faults.len() ==> #[trigger] faults[k] != SqliteFault::Other,
    ensures
        tries_made(0, faults) == 5,
{
    lemma_busy_tries(0, faults);
}

proof fn lemma_busy_tries(retries: nat, faults: Seq<SqliteFault>)
    requires
        retries <= 4,
        faults.len() >= 5 - retries,
        forall|k: int| 0 <= k < faults.len() ==> #[trigger] faults[k] != SqliteFault::Other,
    ensures
        tries_made(retries, faults) == 5 - retries,
    decreases faults.len(),
{
    assert(faults[0] != SqliteFault::Other);
    if retries < 4 {
        let rest = faults.skip(1);
        assert forall|k: int| 0 <= k < rest.len() implies #[trigger] rest[k] != SqliteFault::Other by {
            assert(rest[k] == faults[k + 1]);
        }
        lemma_busy_tries(retries + 1, rest);
    }
}

/// Each proxy has its own key in Redis, made of its host and port.
pub proof fn law_redis_keys_name_their_proxy(host: IpAddr, port: u16)
    ensures
        proxy_key_text(host, port) == "proxybroker:proxy:"@ + (host.text() + seq![':'] + text::decimal(
            port as nat,
        )),
        redis_schema() == seq!['1'],
{
    reveal_strlit("1");
    assert("1"@ =~= seq!['1']);
}

/// A member without a colon, one whose host is no address and one whose port is no number up to
/// 65535 are left out, each for its own reason.
pub proof fn law_bad_members_are_told_apart(front: Seq<char>, tail: Seq<char>)
    requires
        !tail.contains(':'),
    ensures
        member_of(tail) == Err::<Key, MemberFault>(MemberFault::Malformed),
        addr_parse::ip_of(front) is None ==> member_of(front + seq![':'] + tail) == Err::<
            Key,
            MemberFault,
        >(MemberFault::Host),
        addr_parse::ip_of(front) is Some && text::number(tail, 65535) is Err ==> member_of(
            front + seq![':'] + tail,
        ) == Err::<Key, MemberFault>(MemberFault::Port),
{
    let s = front + seq![':'] + tail;
    assert forall|k: int| 0 <= k < tail.len() implies #[trigger] tail[k] != ':' by {
        assert(tail.contains(tail[k]));
    }
    text::lemma_rfind_behind(front, tail, ':', s.len() as int);
    assert(s.take(front.len() as int) =~= front);
    assert(s.skip(front.len() as int + 1) =~= tail);
    lemma_no_last_colon(tail, tail.len() as int);
}

proof fn lemma_no_last_colon(s: Seq<char>, i: int)
    requires
        0 <= i <= s.len(),
        forall|k: int| 0 <= k < s.len() ==> #[trigger] s[k] != ':',
    ensures
        text::rfind_from(s, ':', i) == 0,
    decreases i,
{
    if i > 0 {
        lemma_no_last_colon(s, i - 1);
    }
}

/// A count in text is the number it stands for; one that is missing, no number or too large is
/// nought.
pub proof fn law_counts_are_read_from_text(n: nat, s: Seq<char>)
    ensures
        n <= u32::MAX ==> count_of(Some(text::decimal(n))) == n,
        n > u32::MAX ==> count_of(Some(text::decimal(n))) == 0,
        text::number(s, u32::MAX as nat) is Err ==> count_of(Some(s)) == 0,
        count_of(None) == 0,
{
    if n <= u32::MAX {
        text::law_number_of_decimal(n, u32::MAX as nat);
    } else {
        text::law_number_past_its_bound_is_refused(n, u32::MAX as nat);
    }
}

/// The complaint about another layout shows what was found and what was expected.
pub proof fn law_mismatch_names_both_marks(found: Seq<char>, expected: Seq<char>)
    ensures
        mismatch_text(found, expected) == "redis store schema mismatch: found "@ + (found
            + ", expected "@ + expected)
            + " — wipe the proxybroker:* keys or point --state at a fresh database"@,
{
    assert(mismatch_text(found, expected) =~= "redis store schema mismatch: found "@ + (found
        + ", expected "@ + expected)
        + " — wipe the proxybroker:* keys or point --state at a fresh database"@);
}

} // verus!

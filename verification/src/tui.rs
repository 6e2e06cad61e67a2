//! The live dashboard: what it holds and how it changes. Drawing it is the terminal's business.
use crate::addr;
use crate::addr::IpAddr;
use crate::measure::Measure;
use crate::output;
use crate::proxy;
use crate::proxy::Proxy;
use crate::server::pool::{Averages, PoolSnapshot};
use crate::text;
use crate::types::{Duration, Scheme};
use vstd::prelude::*;
use vstd::string::*;

verus! {

/// One row of the table: a proxy as it is shown.
#[derive(Debug, PartialEq, Eq)]
pub struct Row {
    /// The address by which the row's history is found.
    pub key: (IpAddr, u16),
    pub addr: String,
    pub protos: String,
    pub error_rate: Measure,
    pub resp_time: Measure,
    pub country: String,
}

/// The contents of a [`Row`].
pub struct RowView {
    pub key: (IpAddr, u16),
    pub addr: Seq<char>,
    pub protos: Seq<char>,
    pub error_rate: Measure,
    pub resp_time: Measure,
    pub country: Seq<char>,
}

impl View for Row {
    type V = RowView;

    open spec fn view(&self) -> RowView {
        RowView {
            key: self.key,
            addr: self.addr@,
            protos: self.protos@,
            error_rate: self.error_rate,
            resp_time: self.resp_time,
            country: self.country@,
        }
    }
}

/// The contents of some rows.
pub open spec fn row_views(v: Seq<Row>) -> Seq<RowView> {
    v.map_values(|r: Row| r@)
}

/// The column that the table is sorted by: texts in the order of their characters, measures from
/// the least.
#[derive(Clone, Copy, Debug, PartialEq, Eq, Structural)]
pub enum SortKey {
    Addr,
    ErrorRate,
    RespTime,
    Country,
}

/// How many response times of a proxy are kept.
pub const RING_CAP: usize = 60;

/// Whether one text goes before another: by the first character in which they differ, and the
/// shorter first where it starts the longer.
pub open spec fn text_before(a: Seq<char>, b: Seq<char>) -> bool
    decreases a.len(),
{
    if b.len() == 0 {
        false
    } else if a.len() == 0 {
        true
    } else if a[0] != b[0] {
        a[0] < b[0]
    } else {
        text_before(a.skip(1), b.skip(1))
    }
}

/// Whether one row goes before another.
pub open spec fn row_before(a: RowView, b: RowView, key: SortKey) -> bool {
    match key {
        SortKey::Addr => text_before(a.addr, b.addr),
        SortKey::ErrorRate => a.error_rate.rank() < b.error_rate.rank(),
        SortKey::RespTime => a.resp_time.rank() < b.resp_time.rank(),
        SortKey::Country => text_before(a.country, b.country),
    }
}

/// Sorted rows with one more put in front of the first that does not go before it.
pub open spec fn with_row(s: Seq<RowView>, x: RowView, key: SortKey) -> Seq<RowView>
    decreases s.len(),
{
    if s.len() == 0 || !row_before(s[0], x, key) {
        seq![x] + s
    } else {
        seq![s[0]] + with_row(s.skip(1), x, key)
    }
}

/// Rows in order; those of which neither goes before the other stay in the order they had.
pub open spec fn sorted(s: Seq<RowView>, key: SortKey) -> Seq<RowView>
    decreases s.len(),
{
    if s.len() == 0 {
        Seq::empty()
    } else {
        with_row(sorted(s.skip(1), key), s[0], key)
    }
}

/// A proxy as it is shown.
pub open spec fn row_of(p: Proxy) -> RowView {
    RowView {
        key: (p.host, p.port),
        addr: addr::socket_text(p.host, p.port),
        protos: output::names_joined(p.types.key_seq(), ','),
        error_rate: p.error_rate,
        resp_time: p.avg_resp_time,
        country: output::country_code(p),
    }
}

/// The response times of a proxy that are kept, oldest first.
pub type Ring = ((IpAddr, u16), Seq<Measure>);

/// The contents of the histories.
pub open spec fn rings(v: Seq<((IpAddr, u16), Vec<Measure>)>) -> Seq<Ring> {
    v.map_values(|r: ((IpAddr, u16), Vec<Measure>)| (r.0, r.1@))
}

/// The last response times, as many as are kept.
pub open spec fn last_kept(s: Seq<Measure>) -> Seq<Measure> {
    if s.len() > RING_CAP {
        s.skip(s.len() - RING_CAP)
    } else {
        s
    }
}

/// Where the history of an address stands, from the `i`th on; the length where it has none.
pub open spec fn ring_at(h: Seq<Ring>, key: (IpAddr, u16), i: int) -> int
    decreases h.len() - i,
{
    if i < 0 || i >= h.len() {
        h.len() as int
    } else if h[i].0 == key {
        i
    } else {
        ring_at(h, key, i + 1)
    }
}

/// The histories after a proxy's response time was added to its own.
pub open spec fn with_sample(h: Seq<Ring>, key: (IpAddr, u16), x: Measure) -> Seq<Ring> {
    let i = ring_at(h, key, 0);
    if i < h.len() {
        h.update(i, (key, last_kept(h[i].1.push(x))))
    } else {
        h.push((key, seq![x]))
    }
}

/// The histories after the first `n` proxies were added.
pub open spec fn with_samples(h: Seq<Ring>, ps: Seq<Proxy>, n: nat) -> Seq<Ring>
    decreases n,
{
    if n == 0 {
        h
    } else {
        with_sample(
            with_samples(h, ps, (n - 1) as nat),
            (ps[n - 1].host, ps[n - 1].port),
            ps[n - 1].avg_resp_time,
        )
    }
}

/// How many of the first `n` proxies can carry the scheme.
pub open spec fn count_serving(ps: Seq<Proxy>, scheme: Scheme, n: nat) -> nat
    decreases n,
{
    if n == 0 {
        0
    } else {
        count_serving(ps, scheme, (n - 1) as nat) + (if proxy::carries(ps[n - 1].types, scheme) {
            1nat
        } else {
            0nat
        })
    }
}

/// A selection kept among `n` rows.
pub open spec fn clamped(selected: usize, n: nat) -> usize {
    if n == 0 {
        0
    } else if selected >= n {
        (n - 1) as usize
    } else {
        selected
    }
}

/// All that a frame shows.
#[derive(Debug, PartialEq, Eq)]
pub struct DashboardState {
    pub rows: Vec<Row>,
    pub snapshot: PoolSnapshot,
    pub sort: SortKey,
    /// The response times of each proxy, kept while it is away from the pool.
    pub history: Vec<((IpAddr, u16), Vec<Measure>)>,
    pub selected: usize,
}

/// A key that was pressed.
#[derive(Clone, Copy, Debug, PartialEq, Eq, Structural)]
pub enum Key {
    Char(char),
    Esc,
    Up,
    Down,
    Other,
}

/// Whether one text goes before another.
fn is_text_before(a: &str, b: &str) -> (out: bool)
    ensures
        out == text_before(a@, b@),
{
    let x = text::chars_of(a);
    let y = text::chars_of(b);
    let mut i: usize = 0;
    proof {
        assert(x@.skip(0) =~= x@);
        assert(y@.skip(0) =~= y@);
    }
    loop
        invariant
            i <= x@.len(),
            i <= y@.len(),
            x@ == a@,
            y@ == b@,
            text_before(a@, b@) == text_before(x@.skip(i as int), y@.skip(i as int)),
        decreases x@.len() - i,
    {
        if i >= y.len() {
            return false;
        }
        if i >= x.len() {
            return true;
        }
        proof {
            assert(x@.skip(i as int)[0] == x@[i as int]);
            assert(y@.skip(i as int)[0] == y@[i as int]);
            assert(x@.skip(i as int).skip(1) =~= x@.skip(i + 1));
            assert(y@.skip(i as int).skip(1) =~= y@.skip(i + 1));
        }
        if x[i] != y[i] {
            return x[i] < y[i];
        }
        i += 1;
    }
}

fn is_row_before(a: &Row, b: &Row, key: SortKey) -> (out: bool)
    ensures
        out == row_before(a@, b@, key),
{
    match key {
        SortKey::Addr => is_text_before(a.addr.as_str(), b.addr.as_str()),
        SortKey::ErrorRate => a.error_rate.order_key() < b.error_rate.order_key(),
        SortKey::RespTime => a.resp_time.order_key() < b.resp_time.order_key(),
        SortKey::Country => is_text_before(a.country.as_str(), b.country.as_str()),
    }
}

proof fn lemma_with_row(s: Seq<RowView>, x: RowView, key: SortKey, at: int)
    requires
        0 <= at <= s.len(),
        forall|j: int| 0 <= j < at ==> row_before(#[trigger] s[j], x, key),
        at == s.len() || !row_before(s[at], x, key),
    ensures
        with_row(s, x, key) == s.insert(at, x),
    decreases at,
{
    if at > 0 {
        assert forall|j: int| 0 <= j < at - 1 implies row_before(#[trigger] s.skip(1)[j], x, key) by {
            assert(s.skip(1)[j] == s[j + 1]);
        }
        assert(row_before(s[0], x, key));
        if at < s.len() {
            assert(s.skip(1)[at - 1] == s[at]);
        }
        lemma_with_row(s.skip(1), x, key, at - 1);
        assert(seq![s[0]] + s.skip(1).insert(at - 1, x) =~= s.insert(at, x));
    } else {
        assert(seq![x] + s =~= s.insert(0, x));
    }
}

/// The rows in order.
fn sort(rows: Vec<Row>, key: SortKey) -> (out: Vec<Row>)
    ensures
        row_views(out@) == sorted(row_views(rows@), key),
{
    let ghost all = row_views(rows@);
    let mut left = rows;
    let mut out: Vec<Row> = Vec::new();
    let mut n: usize = left.len();
    assert(all.skip(n as int) =~= Seq::empty());
    assert(row_views(out@) =~= Seq::empty());
    while n > 0
        invariant
            n == left@.len(),
            n <= all.len(),
            row_views(left@) == all.take(n as int),
            row_views(out@) == sorted(all.skip(n as int), key),
        decreases n,
    {
        let ghost before = left@;
        let ghost done = row_views(out@);
        let x = match left.pop() {
            Some(r) => r,
            None => {
                return out;
            },
        };
        n -= 1;
        proof {
            assert(row_views(before)[n as int] == x@);
            assert(all[n as int] == x@);
            assert(row_views(left@) =~= all.take(n as int));
        }
        let mut at: usize = 0;
        while at < out.len() && is_row_before(&out[at], &x, key)
            invariant
                at <= out@.len(),
                row_views(out@) == done,
                forall|j: int| 0 <= j < at ==> row_before(#[trigger] done[j], x@, key),
            decreases out@.len() - at,
        {
            assert(done[at as int] == out@[at as int]@);
            at += 1;
        }
        proof {
            assert(done.len() == out@.len());
            if at < out@.len() {
                assert(done[at as int] == out@[at as int]@);
            }
            lemma_with_row(done, x@, key, at as int);
            assert(all.skip(n as int)[0] == x@);
            assert(all.skip(n as int).skip(1) =~= all.skip(n + 1));
        }
        let ghost v = x@;
        out.insert(at, x);
        assert(row_views(out@) =~= done.insert(at as int, v));
    }
    assert(all.skip(0) =~= all);
    out
}

fn make_row(p: &Proxy) -> (out: Row)
    ensures
        out@ == row_of(*p),
{
    Row {
        key: (p.host, p.port),
        addr: p.addr(),
        protos: output::join_protos(p, ','),
        error_rate: p.error_rate,
        resp_time: p.avg_resp_time,
        country: output::country_str(p),
    }
}

/// A response time put behind others, the oldest dropped where there are too many.
fn push_sample(ring: &mut Vec<Measure>, x: Measure)
    requires
        old(ring)@.len() < usize::MAX,
    ensures
        final(ring)@ == last_kept(old(ring)@.push(x)),
{
    ring.push(x);
    let ghost all = ring@;
    let ghost mut gone: int = 0;
    proof {
        assert(all.skip(0) =~= all);
    }
    while ring.len() > RING_CAP
        invariant
            0 <= gone <= all.len(),
            ring@ == all.skip(gone),
            gone == 0 || all.len() - gone >= RING_CAP,
        decreases ring@.len(),
    {
        let first = ring.remove(0);
        proof {
            gone = gone + 1;
            assert(ring@ =~= all.skip(gone));
        }
    }
    assert(ring@ =~= last_kept(all));
}

impl Default for DashboardState {
    /// Nothing to show yet; the fastest is to come first.
    fn default() -> (out: DashboardState)
        ensures
            out.rows@.len() == 0,
            out.snapshot.total == 0,
            out.snapshot.http == 0,
            out.snapshot.https == 0,
            out.snapshot.avg_error_rate.bits == 0,
            out.snapshot.avg_resp_time.bits == 0,
            out.snapshot.probe_latency_avg.bits == 0,
            out.sort == SortKey::RespTime,
            out.history@.len() == 0,
            out.selected == 0,
    {
        DashboardState {
            rows: Vec::new(),
            snapshot: PoolSnapshot {
                http: 0,
                https: 0,
                total: 0,
                avg_error_rate: Measure::zero(),
                avg_resp_time: Measure::zero(),
                probe_latency_avg: Measure::zero(),
            },
            sort: SortKey::RespTime,
            history: Vec::new(),
            selected: 0,
        }
    }
}

impl DashboardState {
    /// No history holds more than is kept.
    pub open spec fn wf(&self) -> bool {
        forall|i: int| 0 <= i < self.history@.len() ==> (#[trigger] self.history@[i]).1@.len() <= RING_CAP
    }

    fn add_sample(&mut self, host: IpAddr, port: u16, x: Measure)
        requires
            old(self).wf(),
        ensures
            final(self).wf(),
            rings(final(self).history@) == with_sample(rings(old(self).history@), (host, port), x),
            final(self).rows == old(self).rows,
            final(self).snapshot == old(self).snapshot,
            final(self).sort == old(self).sort,
            final(self).selected == old(self).selected,
    {
        let ghost was = self.history@;
        let ghost h = rings(was);
        let mut i: usize = 0;
        while i < self.history.len()
            invariant
                i <= self.history@.len(),
                *self == *old(self),
                was == self.history@,
                h == rings(was),
                self.wf(),
                ring_at(h, (host, port), 0) == ring_at(h, (host, port), i as int),
            decreases self.history@.len() - i,
        {
            let k = self.history[i].0;
            assert(h[i as int] == (was[i as int].0, was[i as int].1@));
            if k.0 == host && k.1 == port {
                let mut ring: Vec<Measure> = Vec::new();
                let mut j: usize = 0;
                while j < self.history[i].1.len()
                    invariant
                        i < self.history@.len(),
                        j <= self.history@[i as int].1@.len(),
                        ring@ == self.history@[i as int].1@.take(j as int),
                    decreases self.history@[i as int].1@.len() - j,
                {
                    ring.push(self.history[i].1[j]);
                    j += 1;
                    assert(ring@ =~= self.history@[i as int].1@.take(j as int));
                }
                assert(ring@ =~= was[i as int].1@);
                push_sample(&mut ring, x);
                let ghost kept = ring@;
                self.history.set(i, (k, ring));
                proof {
                    assert(kept == last_kept(h[i as int].1.push(x)));
                    assert(rings(self.history@) =~= h.update(i as int, ((host, port), kept)));
                    assert(self.wf()) by {
                        assert forall|m: int| 0 <= m < self.history@.len() implies (
                        #[trigger] self.history@[m]).1@.len() <= RING_CAP by {
                            if m != i {
                                assert(self.history@[m] == was[m]);
                            }
                        }
                    }
                }
                return;
            }
            i += 1;
        }
        let mut ring: Vec<Measure> = Vec::new();
        ring.push(x);
        assert(ring@ =~= seq![x]);
        self.history.push(((host, port), ring));
        assert(rings(self.history@) =~= h.push(((host, port), seq![x])));
    }

    /// Take in the proxies of the pool at one moment, and the means over them: the rows are built
    /// and sorted anew, each response time joins its proxy's history, the counts are of the same
    /// proxies, and the selection stays among the rows.
    pub fn apply(&mut self, proxies: &Vec<Proxy>, means: Averages)
        requires
            old(self).wf(),
        ensures
            final(self).wf(),
            row_views(final(self).rows@) == sorted(
                proxies@.map_values(|p: Proxy| row_of(p)),
                old(self).sort,
            ),
            rings(final(self).history@) == with_samples(
                rings(old(self).history@),
                proxies@,
                proxies@.len(),
            ),
            final(self).snapshot.total == proxies@.len(),
            final(self).snapshot.http == count_serving(proxies@, Scheme::Http, proxies@.len()),
            final(self).snapshot.https == count_serving(proxies@, Scheme::Https, proxies@.len()),
            proxies@.len() > 0 ==> final(self).snapshot.avg_error_rate == means.error_rate && final(self).snapshot.avg_resp_time == means.resp_time && final(self).snapshot.probe_latency_avg
                == means.probe_latency,
            proxies@.len() == 0 ==> final(self).snapshot.avg_error_rate.bits == 0 && final(self).snapshot.avg_resp_time.bits == 0 && final(self).snapshot.probe_latency_avg.bits == 0,
            final(self).sort == old(self).sort,
            final(self).selected == clamped(old(self).selected, final(self).rows@.len()),
    {
        let mut rows: Vec<Row> = Vec::new();
        let mut http: usize = 0;
        let mut https: usize = 0;
        let mut i: usize = 0;
        while i < proxies.len()
            invariant
                i <= proxies@.len(),
                self.wf(),
                row_views(rows@) == proxies@.take(i as int).map_values(|p: Proxy| row_of(p)),
                rings(self.history@) == with_samples(
                    rings(old(self).history@),
                    proxies@,
                    i as nat,
                ),
                http == count_serving(proxies@, Scheme::Http, i as nat),
                https == count_serving(proxies@, Scheme::Https, i as nat),
                http <= i,
                https <= i,
                self.sort == old(self).sort,
                self.selected == old(self).selected,
            decreases proxies@.len() - i,
        {
            let p = &proxies[i];
            let ghost before = rows@;
            rows.push(make_row(p));
            proof {
                assert(row_views(rows@) =~= row_views(before).push(row_of(*p)));
                assert(proxies@.take(i + 1).map_values(|p: Proxy| row_of(p)) =~= proxies@.take(
                    i as int,
                ).map_values(|p: Proxy| row_of(p)).push(row_of(*p)));
            }
            self.add_sample(p.host, p.port, p.avg_resp_time);
            if p.serves(Scheme::Http) {
                http += 1;
            }
            if p.serves(Scheme::Https) {
                https += 1;
            }
            i += 1;
        }
        assert(proxies@.take(i as int) =~= proxies@);
        let known = proxies.len() > 0;
        self.snapshot = PoolSnapshot {
            http,
            https,
            total: proxies.len(),
            avg_error_rate: if known { means.error_rate } else { Measure::zero() },
            avg_resp_time: if known { means.resp_time } else { Measure::zero() },
            probe_latency_avg: if known { means.probe_latency } else { Measure::zero() },
        };
        self.rows = sort(rows, self.sort);
        let n: usize = self.rows.len();
        if n == 0 {
            self.selected = 0;
        } else if self.selected >= n {
            self.selected = n - 1;
        }
    }

    /// Sort the rows by another column.
    fn sort_by(&mut self, key: SortKey)
        ensures
            final(self).sort == key,
            row_views(final(self).rows@) == sorted(row_views(old(self).rows@), key),
            final(self).snapshot == old(self).snapshot,
            final(self).history == old(self).history,
            final(self).selected == old(self).selected,
    {
        let mut rows: Vec<Row> = Vec::new();
        std::mem::swap(&mut rows, &mut self.rows);
        self.sort = key;
        self.rows = sort(rows, key);
    }

    /// Take in a key; `false` means to quit. `a`, `e`, `r` and `c` choose the column to sort by,
    /// the arrows and `j` and `k` move the selection among the rows, `q` and escape quit, and any
    /// other key does nothing.
    pub fn on_key(&mut self, key: Key) -> (goes_on: bool)
        ensures
            goes_on == !quits(key),
            final(self).snapshot == old(self).snapshot,
            final(self).history == old(self).history,
            match sort_chosen(key) {
                Some(s) => final(self).sort == s && row_views(final(self).rows@) == sorted(
                    row_views(old(self).rows@),
                    s,
                ) && final(self).selected == old(self).selected,
                None => final(self).sort == old(self).sort && final(self).rows == old(self).rows
                    && final(self).selected == moved(
                    key,
                    old(self).selected,
                    old(self).rows@.len(),
                ),
            },
    {
        match key {
            Key::Esc => {
                return false;
            },
            Key::Down => self.move_down(),
            Key::Up => self.move_up(),
            Key::Char(c) => {
                if c == 'q' {
                    return false;
                } else if c == 'a' {
                    self.sort_by(SortKey::Addr);
                } else if c == 'e' {
                    self.sort_by(SortKey::ErrorRate);
                } else if c == 'r' {
                    self.sort_by(SortKey::RespTime);
                } else if c == 'c' {
                    self.sort_by(SortKey::Country);
                } else if c == 'j' {
                    self.move_down();
                } else if c == 'k' {
                    self.move_up();
                }
            },
            Key::Other => {},
        }
        true
    }

    fn move_down(&mut self)
        ensures
            *final(self) == (DashboardState {
                selected: moved(Key::Down, old(self).selected, old(self).rows@.len()),
                ..*old(self)
            }),
    {
        let n: usize = self.rows.len();
        if n > 0 {
            let next: usize = self.selected.saturating_add(1);
            self.selected = if next < n { next } else { n - 1 };
        }
    }

    fn move_up(&mut self)
        ensures
            *final(self) == (DashboardState {
                selected: moved(Key::Up, old(self).selected, old(self).rows@.len()),
                ..*old(self)
            }),
    {
        if self.selected > 0 {
            self.selected -= 1;
        }
    }

    /// The response times of the selected proxy, oldest first; none where no row is selected.
    pub fn selected_ring(&self) -> (out: Vec<Measure>)
        ensures
            out@ == ring_of(rings(self.history@), row_views(self.rows@), self.selected),
    {
        let mut out: Vec<Measure> = Vec::new();
        assert(out@ =~= Seq::empty());
        if self.selected >= self.rows.len() {
            return out;
        }
        let key = self.rows[self.selected].key;
        let ghost h = rings(self.history@);
        assert(row_views(self.rows@)[self.selected as int].key == key);
        let mut i: usize = 0;
        while i < self.history.len()
            invariant
                i <= self.history@.len(),
                h == rings(self.history@),
                out@ == Seq::<Measure>::empty(),
                self.selected < self.rows@.len(),
                row_views(self.rows@)[self.selected as int].key == key,
                ring_at(h, key, 0) == ring_at(h, key, i as int),
            decreases self.history@.len() - i,
        {
            let k = self.history[i].0;
            assert(h[i as int] == (self.history@[i as int].0, self.history@[i as int].1@));
            if k.0 == key.0 && k.1 == key.1 {
                let mut j: usize = 0;
                while j < self.history[i].1.len()
                    invariant
                        i < self.history@.len(),
                        j <= self.history@[i as int].1@.len(),
                        out@ == self.history@[i as int].1@.take(j as int),
                    decreases self.history@[i as int].1@.len() - j,
                {
                    out.push(self.history[i].1[j]);
                    j += 1;
                    assert(out@ =~= self.history@[i as int].1@.take(j as int));
                }
                assert(out@ =~= h[i as int].1);
                return out;
            }
            i += 1;
        }
        out
    }
}

/// The response times of the selected row.
pub open spec fn ring_of(h: Seq<Ring>, rows: Seq<RowView>, selected: usize) -> Seq<Measure> {
    if selected >= rows.len() {
        Seq::empty()
    } else {
        let i = ring_at(h, rows[selected as int].key, 0);
        if i < h.len() {
            h[i].1
        } else {
            Seq::empty()
        }
    }
}

/// Whether a key quits.
pub open spec fn quits(key: Key) -> bool {
    key == Key::Esc || key == Key::Char('q')
}

/// The column that a key sorts by.
pub open spec fn sort_chosen(key: Key) -> Option<SortKey> {
    if key == Key::Char('a') {
        Some(SortKey::Addr)
    } else if key == Key::Char('e') {
        Some(SortKey::ErrorRate)
    } else if key == Key::Char('r') {
        Some(SortKey::RespTime)
    } else if key == Key::Char('c') {
        Some(SortKey::Country)
    } else {
        None
    }
}

/// The selection after a key, among `n` rows.
pub open spec fn moved(key: Key, selected: usize, n: nat) -> usize {
    if (key == Key::Down || key == Key::Char('j')) && n > 0 {
        if selected + 1 < n {
            (selected + 1) as usize
        } else {
            (n - 1) as usize
        }
    } else if (key == Key::Up || key == Key::Char('k')) && selected > 0 {
        (selected - 1) as usize
    } else {
        selected
    }
}

/// The time between two frames: as asked for, but at least a tenth of a second.
pub fn refresh_period(asked: Duration) -> (out: Duration)
    ensures
        out.nanos == (if asked.nanos < 100_000_000 {
            100_000_000
        } else {
            asked.nanos as int
        }),
{
    if asked.nanos < 100_000_000 {
        Duration::from_millis(100)
    } else {
        asked
    }
}

/// The line above the table, with the means written out.
pub open spec fn header_of(s: PoolSnapshot, err: Seq<char>, resp: Seq<char>) -> Seq<char> {
    "total "@ + text::decimal(s.total as nat) + " | http "@ + text::decimal(s.http as nat)
        + " | https "@ + text::decimal(s.https as nat) + " | avg err "@ + err + " | avg resp "@
        + resp + "s"@
}

/// The line above the table, with the means written out with two decimal places.
pub fn header_text(s: &PoolSnapshot, err: &str, resp: &str) -> (out: String)
    ensures
        out@ == header_of(*s, err@, resp@),
{
    let mut out = "total ".to_owned();
    text::push_decimal(&mut out, s.total as u64);
    out.append(" | http ");
    text::push_decimal(&mut out, s.http as u64);
    out.append(" | https ");
    text::push_decimal(&mut out, s.https as u64);
    out.append(" | avg err ");
    out.append(err);
    out.append(" | avg resp ");
    out.append(resp);
    out.append("s");
    assert(out@ =~= header_of(*s, err@, resp@));
    out
}

/// The cells of a row, with its measures written out.
pub fn row_cells(r: &Row, err: &str, resp: &str) -> (out: Vec<String>)
    ensures
        text::texts(out@) == seq![r.addr@, r.protos@, err@, resp@, r.country@],
{
    let mut out: Vec<String> = Vec::new();
    out.push(r.addr.clone());
    out.push(r.protos.clone());
    out.push(err.to_owned());
    out.push(resp.to_owned());
    out.push(r.country.clone());
    assert(text::texts(out@) =~= seq![r.addr@, r.protos@, err@, resp@, r.country@]);
    out
}

// ----- laws

proof fn lemma_text_before_transitive(a: Seq<char>, b: Seq<char>, c: Seq<char>)
    ensures
        text_before(a, b) && text_before(b, c) ==> text_before(a, c),
        !text_before(a, b) && !text_before(b, c) ==> !text_before(a, c),
        text_before(a, b) ==> !text_before(b, a),
    decreases a.len() + b.len() + c.len(),
{
    if a.len() > 0 && b.len() > 0 && c.len() > 0 {
        lemma_text_before_transitive(a.skip(1), b.skip(1), c.skip(1));
    } else if a.len() > 0 && b.len() > 0 {
        lemma_text_before_transitive(a.skip(1), b.skip(1), c);
    }
}

proof fn lemma_row_before(a: RowView, b: RowView, c: RowView, key: SortKey)
    ensures
        !row_before(a, b, key) && !row_before(b, c, key) ==> !row_before(a, c, key),
        row_before(a, b, key) ==> !row_before(b, a, key),
{
    lemma_text_before_transitive(a.addr, b.addr, c.addr);
    lemma_text_before_transitive(a.country, b.country, c.country);
}

/// Whether no row goes before one that stands ahead of it.
pub open spec fn in_order(s: Seq<RowView>, key: SortKey) -> bool {
    forall|i: int, j: int|
        0 <= i < j < s.len() ==> !row_before(#[trigger] s[j], #[trigger] s[i], key)
}

proof fn lemma_with_row_sorted(s: Seq<RowView>, x: RowView, key: SortKey)
    requires
        in_order(s, key),
    ensures
        in_order(with_row(s, x, key), key),
        with_row(s, x, key).to_multiset() == s.to_multiset().insert(x),
        with_row(s, x, key).len() == s.len() + 1,
        forall|k: int|
            0 <= k < with_row(s, x, key).len() ==> (#[trigger] with_row(s, x, key)[k] == x
                || s.contains(with_row(s, x, key)[k])),
    decreases s.len(),
{
    let out = with_row(s, x, key);
    if s.len() == 0 || !row_before(s[0], x, key) {
        assert(out =~= s.insert(0, x));
        vstd::seq_lib::to_multiset_insert(s, 0, x);
        assert forall|i: int, j: int| 0 <= i < j < out.len() implies !row_before(
            #[trigger] out[j],
            #[trigger] out[i],
            key,
        ) by {
            assert(out[j] == s[j - 1]);
            if i == 0 {
                if j > 1 {
                    lemma_row_before(s[j - 1], s[0], x, key);
                }
            } else {
                assert(out[i] == s[i - 1]);
            }
        }
        assert forall|k: int| 0 <= k < out.len() implies (#[trigger] out[k] == x || s.contains(
            out[k],
        )) by {
            if k > 0 {
                assert(out[k] == s[k - 1]);
            }
        }
    } else {
        let t = s.skip(1);
        assert(in_order(t, key)) by {
            assert forall|i: int, j: int| 0 <= i < j < t.len() implies !row_before(
                #[trigger] t[j],
                #[trigger] t[i],
                key,
            ) by {
                assert(t[j] == s[j + 1] && t[i] == s[i + 1]);
            }
        }
        lemma_with_row_sorted(t, x, key);
        let rest = with_row(t, x, key);
        assert forall|i: int, j: int| 0 <= i < j < out.len() implies !row_before(
            #[trigger] out[j],
            #[trigger] out[i],
            key,
        ) by {
            assert(out[j] == rest[j - 1]);
            if i == 0 {
                if rest[j - 1] == x {
                    lemma_row_before(s[0], x, x, key);
                } else {
                    let k = choose|k: int| 0 <= k < t.len() && t[k] == rest[j - 1];
                    assert(s[k + 1] == rest[j - 1]);
                    assert(!row_before(s[k + 1], s[0], key));
                }
            } else {
                assert(out[i] == rest[i - 1]);
            }
        }
        assert(out =~= rest.insert(0, s[0]));
        vstd::seq_lib::to_multiset_insert(rest, 0, s[0]);
        assert(s =~= t.insert(0, s[0]));
        vstd::seq_lib::to_multiset_insert(t, 0, s[0]);
        assert(out.to_multiset() =~= s.to_multiset().insert(x));
        assert forall|k: int| 0 <= k < out.len() implies (#[trigger] out[k] == x || s.contains(
            out[k],
        )) by {
            if k > 0 {
                assert(out[k] == rest[k - 1]);
                if rest[k - 1] != x {
                    let m = choose|m: int| 0 <= m < t.len() && t[m] == rest[k - 1];
                    assert(s[m + 1] == out[k]);
                }
            }
        }
    }
}

/// Sorting puts the rows in order and neither loses nor adds any.
pub proof fn law_sorting_orders_and_keeps_rows(s: Seq<RowView>, key: SortKey)
    ensures
        in_order(sorted(s, key), key),
        sorted(s, key).to_multiset() == s.to_multiset(),
        sorted(s, key).len() == s.len(),
    decreases s.len(),
{
    if s.len() > 0 {
        let t = s.skip(1);
        law_sorting_orders_and_keeps_rows(t, key);
        lemma_with_row_sorted(sorted(t, key), s[0], key);
        assert(s =~= t.insert(0, s[0]));
        vstd::seq_lib::to_multiset_insert(t, 0, s[0]);
    } else {
        assert(sorted(s, key) =~= s);
    }
}

/// After any key the selection is among the rows, where it was before.
pub proof fn law_selection_stays_among_rows(key: Key, selected: usize, n: nat)
    requires
        selected < n || n == 0 && selected == 0,
    ensures
        moved(key, selected, n) < n || n == 0 && moved(key, selected, n) == 0,
{
}

/// However many response times a proxy has, no more than the cap are kept, and they are the latest.
pub proof fn law_history_keeps_the_latest(s: Seq<Measure>, x: Measure)
    requires
        s.len() <= RING_CAP,
    ensures
        last_kept(s.push(x)).len() <= RING_CAP,
        last_kept(s.push(x)).last() == x,
        s.len() < RING_CAP ==> last_kept(s.push(x)) == s.push(x),
        s.len() == RING_CAP ==> last_kept(s.push(x)) == s.skip(1).push(x),
{
    if s.len() == RING_CAP {
        assert(s.push(x).skip(1) =~= s.skip(1).push(x));
    }
}

/// A row shows its own proxy: the address, the protocols with commas between, the measures, and the
/// code of the country where it is known.
pub proof fn law_row_shows_its_proxy(p: Proxy)
    ensures
        row_of(p).key == (p.host, p.port),
        row_of(p).addr == addr::socket_text(p.host, p.port),
        row_of(p).protos == output::names_joined(p.types.key_seq(), ','),
        row_of(p).error_rate == p.error_rate,
        row_of(p).resp_time == p.avg_resp_time,
        p.geo matches Some(g) ==> row_of(p).country == g.code@,
        p.geo is None ==> row_of(p).country == Seq::<char>::empty(),
{
    reveal_strlit("");
    assert(""@ =~= Seq::<char>::empty());
}

/// Texts go in the order of their characters: the first in which they differ decides, and a text
/// goes before every longer one that it starts.
pub proof fn law_texts_go_by_their_first_difference(
    s: Seq<char>,
    a: char,
    b: char,
    x: Seq<char>,
    y: Seq<char>,
)
    requires
        a < b,
    ensures
        text_before(s + (seq![a] + x), s + (seq![b] + y)),
        !text_before(s + (seq![b] + y), s + (seq![a] + x)),
        text_before(s, s + (seq![a] + x)),
        !text_before(s + (seq![a] + x), s),
        !text_before(s, s),
    decreases s.len(),
{
    let (p, q) = (s + (seq![a] + x), s + (seq![b] + y));
    if s.len() > 0 {
        let t = s.skip(1);
        law_texts_go_by_their_first_difference(t, a, b, x, y);
        assert(p.skip(1) =~= t + (seq![a] + x));
        assert(q.skip(1) =~= t + (seq![b] + y));
        assert(p[0] == s[0] && q[0] == s[0]);
    } else {
        assert(p[0] == a && q[0] == b);
    }
}

/// Rows are sorted by the column that was chosen and by no other: texts by their characters,
/// measures from the least.
pub proof fn law_rows_go_by_the_chosen_column(a: RowView, b: RowView)
    ensures
        row_before(a, b, SortKey::Addr) == text_before(a.addr, b.addr),
        row_before(a, b, SortKey::Country) == text_before(a.country, b.country),
        row_before(a, b, SortKey::ErrorRate) == (a.error_rate.rank() < b.error_rate.rank()),
        row_before(a, b, SortKey::RespTime) == (a.resp_time.rank() < b.resp_time.rank()),
{
}

/// Rows that are in order already stay as they are: of rows alike none overtakes another.
pub proof fn law_sorting_is_stable(s: Seq<RowView>, key: SortKey)
    requires
        in_order(s, key),
    ensures
        sorted(s, key) == s,
    decreases s.len(),
{
    if s.len() > 0 {
        let t = s.skip(1);
        assert forall|i: int, j: int| 0 <= i < j < t.len() implies !row_before(
            #[trigger] t[j],
            #[trigger] t[i],
            key,
        ) by {
            assert(t[j] == s[j + 1] && t[i] == s[i + 1]);
        }
        law_sorting_is_stable(t, key);
        if t.len() > 0 {
            assert(t[0] == s[1]);
            assert(!row_before(s[1], s[0], key));
        }
        assert(with_row(t, s[0], key) =~= seq![s[0]] + t);
        assert(seq![s[0]] + t =~= s);
    } else {
        assert(sorted(s, key) =~= s);
    }
}

/// The keys do what they are named for: `q` and escape quit, `a`, `e`, `r` and `c` choose a column,
/// the arrows and `j` and `k` move the selection by one as far as there are rows, and no other key
/// does anything.
pub proof fn law_keys_do_what_they_are_named_for(key: Key, selected: usize, n: nat)
    requires
        selected < n,
        n <= usize::MAX,
    ensures
        quits(key) <==> key == Key::Esc || key == Key::Char('q'),
        sort_chosen(Key::Char('a')) == Some(SortKey::Addr),
        sort_chosen(Key::Char('e')) == Some(SortKey::ErrorRate),
        sort_chosen(Key::Char('r')) == Some(SortKey::RespTime),
        sort_chosen(Key::Char('c')) == Some(SortKey::Country),
        sort_chosen(key) is Some ==> key == Key::Char('a') || key == Key::Char('e') || key
            == Key::Char('r') || key == Key::Char('c'),
        key == Key::Down || key == Key::Char('j') ==> moved(key, selected, n) == (if selected + 1
            < n {
            selected + 1
        } else {
            selected as int
        }),
        key == Key::Up || key == Key::Char('k') ==> moved(key, selected, n) == (if selected > 0 {
            selected - 1
        } else {
            0
        }),
        key != Key::Down && key != Key::Char('j') && key != Key::Up && key != Key::Char('k')
            ==> moved(key, selected, n) == selected,
{
}

/// The selection stays where it is while its row is there, and goes to the last row where it is not.
pub proof fn law_selection_is_kept_among_the_rows(selected: usize, n: nat)
    requires
        n <= usize::MAX,
    ensures
        selected < n ==> clamped(selected, n) == selected,
        n > 0 && selected >= n ==> clamped(selected, n) == n - 1,
        n == 0 ==> clamped(selected, n) == 0,
{
}

proof fn lemma_ring_at(h: Seq<Ring>, key: (IpAddr, u16), i: int)
    requires
        0 <= i <= h.len(),
    ensures
        i <= ring_at(h, key, i) <= h.len(),
        ring_at(h, key, i) < h.len() ==> h[ring_at(h, key, i)].0 == key,
        forall|j: int| i <= j < ring_at(h, key, i) ==> (#[trigger] h[j]).0 != key,
    decreases h.len() - i,
{
    if i < h.len() && h[i].0 != key {
        lemma_ring_at(h, key, i + 1);
    }
}

proof fn lemma_ring_is(h: Seq<Ring>, key: (IpAddr, u16), i: int, at: int)
    requires
        0 <= i <= at < h.len(),
        h[at].0 == key,
        forall|j: int| i <= j < at ==> (#[trigger] h[j]).0 != key,
    ensures
        ring_at(h, key, i) == at,
    decreases at - i,
{
    if i < at {
        lemma_ring_is(h, key, i + 1, at);
    }
}

/// The response times that are kept of an address; none where it has no history.
pub open spec fn kept_of(h: Seq<Ring>, key: (IpAddr, u16)) -> Seq<Measure> {
    let i = ring_at(h, key, 0);
    if i < h.len() {
        h[i].1
    } else {
        Seq::empty()
    }
}

/// A response time joins the history of its own proxy, of which the last sixty are kept, and no
/// other.
pub proof fn law_response_time_joins_its_own_history(
    h: Seq<Ring>,
    key: (IpAddr, u16),
    x: Measure,
    other: (IpAddr, u16),
)
    requires
        other != key,
        kept_of(h, key).len() <= 60,
    ensures
        kept_of(h, key).len() < 60 ==> kept_of(with_sample(h, key, x), key) == kept_of(h, key).push(
            x,
        ),
        kept_of(h, key).len() == 60 ==> kept_of(with_sample(h, key, x), key) == kept_of(
            h,
            key,
        ).skip(1).push(x),
        kept_of(with_sample(h, key, x), other) == kept_of(h, other),
{
    let now = with_sample(h, key, x);
    lemma_ring_at(h, key, 0);
    lemma_ring_at(h, other, 0);
    lemma_ring_at(now, other, 0);
    let i = ring_at(h, key, 0);
    lemma_ring_is(now, key, 0, i);
    law_history_keeps_the_latest(kept_of(h, key), x);
    assert(Seq::<Measure>::empty().push(x) =~= seq![x]);
    let (a, c) = (ring_at(h, other, 0), ring_at(now, other, 0));
    if a < h.len() {
        assert(now[a] == h[a]);
        if c < a {
            assert(now[c].0 == h[c].0);
        }
    } else if c < h.len() {
        assert(now[c].0 == h[c].0);
    }
}

/// What is shown below the table is the history of the selected row; none where no row is selected.
pub proof fn law_selected_history_is_the_rows_own(h: Seq<Ring>, rows: Seq<RowView>, selected: usize)
    ensures
        selected < rows.len() ==> ring_of(h, rows, selected) == kept_of(
            h,
            rows[selected as int].key,
        ),
        selected >= rows.len() ==> ring_of(h, rows, selected) == Seq::<Measure>::empty(),
{
}

/// The count of proxies for a scheme goes up by one with each that can carry it, and with no other.
pub proof fn law_shown_counts_are_of_those_that_carry(ps: Seq<Proxy>, p: Proxy, scheme: Scheme)
    ensures
        count_serving(ps.push(p), scheme, ps.len() + 1) == count_serving(ps, scheme, ps.len()) + (
        if proxy::carries(p.types, scheme) {
            1int
        } else {
            0
        }),
        count_serving(ps, scheme, 0) == 0,
{
    lemma_serving_prefix(ps, p, scheme, ps.len());
}

proof fn lemma_serving_prefix(ps: Seq<Proxy>, p: Proxy, scheme: Scheme, n: nat)
    requires
        n <= ps.len(),
    ensures
        count_serving(ps.push(p), scheme, n) == count_serving(ps, scheme, n),
    decreases n,
{
    if n > 0 {
        lemma_serving_prefix(ps, p, scheme, (n - 1) as nat);
        assert(ps.push(p)[n - 1] == ps[n - 1]);
    }
}

/// The line above the table gives each count and each mean under its own name.
pub proof fn law_heading_names_each_figure(s: PoolSnapshot, err: Seq<char>, resp: Seq<char>)
    ensures
        header_of(s, err, resp) == ("total "@ + text::decimal(s.total as nat)) + (" | http "@
            + text::decimal(s.http as nat)) + (" | https "@ + text::decimal(s.https as nat)) + (
        " | avg err "@ + err) + (" | avg resp "@ + resp + "s"@),
{
    assert(header_of(s, err, resp) =~= ("total "@ + text::decimal(s.total as nat)) + (" | http "@
        + text::decimal(s.http as nat)) + (" | https "@ + text::decimal(s.https as nat)) + (
    " | avg err "@ + err) + (" | avg resp "@ + resp + "s"@));
}

} // verus!

//! Which proxy of the pool serves next.
use crate::addr::IpAddr;
use crate::proxy;
use crate::proxy::Proxy;
use crate::types::{Proto, Scheme};
use vstd::prelude::*;

verus! {

/// How the pool picks a proxy for each request.
#[derive(Clone, Copy, Debug, Default, PartialEq, Eq, Structural)]
pub enum Strategy {
    /// The lowest error rate, then the shortest response time.
    #[default]
    Best,
    /// Each eligible proxy in turn.
    RoundRobin,
    /// Any eligible proxy, all as likely.
    Random,
    /// The proxy that served this client before, while it is in the pool; else the best.
    Sticky,
}

/// A proxy in the pool, and until when it is benched, in nanoseconds on the caller's clock.
#[derive(Debug, PartialEq, Eq)]
pub struct Pooled {
    pub proxy: Proxy,
    pub blocked_until: Option<u128>,
}

/// A step of the generator behind [`Strategy::Random`].
pub open spec fn xorshift(x: u64) -> u64 {
    let a = x ^ (x << 13);
    let b = a ^ (a >> 7);
    b ^ (b << 17)
}

/// The state that the generator starts from.
pub const RANDOM_SEED: u64 = 0x9E37_79B9_7F4A_7C15;

/// A small generator that spreads load. It is not for secrets.
#[derive(Clone, Copy, Debug, PartialEq, Eq, Structural)]
pub struct XorShift {
    pub state: u64,
}

impl XorShift {
    /// The generator at its start.
    pub fn new() -> (out: XorShift)
        ensures
            out.state == RANDOM_SEED,
    {
        XorShift { state: RANDOM_SEED }
    }

    /// The generator one step on.
    pub fn advanced(self) -> (out: XorShift)
        ensures
            out.state == xorshift(self.state),
    {
        let x: u64 = self.state;
        let a: u64 = x ^ (x << 13);
        let b: u64 = a ^ (a >> 7);
        XorShift { state: b ^ (b << 17) }
    }
}

/// The generator never gets stuck: from any state but nought it goes to another that is not nought.
pub proof fn law_generator_never_stuck(x: u64)
    requires
        x != 0,
    ensures
        xorshift(x) != 0,
{
    assert(x != 0 ==> ({
        let a = x ^ (x << 13);
        let b = a ^ (a >> 7);
        b ^ (b << 17)
    }) != 0) by (bit_vector);
}

/// What a selection goes by.
#[derive(Clone, Copy, Debug, PartialEq, Eq)]
pub struct SelectCtx {
    pub scheme: Scheme,
    pub strategy: Strategy,
    /// The address that the client is pinned to.
    pub sticky: Option<(IpAddr, u16)>,
    pub round_robin_cursor: usize,
    /// The number drawn for [`Strategy::Random`].
    pub draw: u64,
    /// The time, in nanoseconds on the caller's clock.
    pub now: u128,
    pub prefer_connect: bool,
}

/// Whether a proxy is not benched, or no longer.
pub open spec fn is_ready(p: Pooled, now: u128) -> bool {
    match p.blocked_until {
        None => true,
        Some(t) => t <= now,
    }
}

/// Whether a proxy belongs to the tier of the ready, or of the benched, that can carry the scheme.
pub open spec fn in_tier(p: Pooled, ctx: SelectCtx, ready: bool) -> bool {
    proxy::carries(p.proxy.types, ctx.scheme) && is_ready(p, ctx.now) == ready
}

/// The positions of a tier's proxies among the first `n` of the pool, in order.
pub open spec fn tier_upto(pool: Seq<Pooled>, ctx: SelectCtx, ready: bool, n: nat) -> Seq<int>
    decreases n,
{
    if n == 0 {
        Seq::empty()
    } else {
        let before = tier_upto(pool, ctx, ready, (n - 1) as nat);
        if in_tier(pool[n - 1], ctx, ready) {
            before.push(n - 1)
        } else {
            before
        }
    }
}

/// The positions that a selection may take: the ready proxies that can carry the scheme, or the
/// benched ones where none is ready.
pub open spec fn tier(pool: Seq<Pooled>, ctx: SelectCtx) -> Seq<int> {
    let ready = tier_upto(pool, ctx, true, pool.len());
    if ready.len() > 0 {
        ready
    } else {
        tier_upto(pool, ctx, false, pool.len())
    }
}

/// Whether a proxy speaks `CONNECT:80`.
pub open spec fn connects(p: Pooled) -> bool {
    p.proxy.types.has(Proto::Connect80)
}

/// Whether `a` goes before `b`: by a lower error rate, then a shorter response time, then, where
/// that is preferred, by speaking `CONNECT:80`.
pub open spec fn better(a: Pooled, b: Pooled, prefer_connect: bool) -> bool {
    let (ae, at) = (a.proxy.error_rate.rank(), a.proxy.avg_resp_time.rank());
    let (be, bt) = (b.proxy.error_rate.rank(), b.proxy.avg_resp_time.rank());
    ||| ae < be
    ||| ae == be && at < bt
    ||| ae == be && at == bt && prefer_connect && connects(a) && !connects(b)
}

/// The best of the first `n` positions: the first one that no other goes before.
pub open spec fn best_upto(pool: Seq<Pooled>, at: Seq<int>, prefer_connect: bool, n: nat) -> int
    decreases n,
{
    if n <= 1 {
        at[0]
    } else {
        let best = best_upto(pool, at, prefer_connect, (n - 1) as nat);
        if better(pool[at[n - 1]], pool[best], prefer_connect) {
            at[n - 1]
        } else {
            best
        }
    }
}

/// The best of the given positions.
pub open spec fn best(pool: Seq<Pooled>, at: Seq<int>, prefer_connect: bool) -> int {
    best_upto(pool, at, prefer_connect, at.len())
}

/// The positions whose proxies speak `CONNECT:80`.
pub open spec fn connecting(pool: Seq<Pooled>, at: Seq<int>) -> Seq<int>
    decreases at.len(),
{
    if at.len() == 0 {
        Seq::empty()
    } else {
        let before = connecting(pool, at.drop_last());
        if connects(pool[at.last()]) {
            before.push(at.last())
        } else {
            before
        }
    }
}

/// The positions to rotate through: only those that speak `CONNECT:80` where that is preferred and
/// there are any.
pub open spec fn biased(pool: Seq<Pooled>, at: Seq<int>, prefer_connect: bool) -> Seq<int> {
    let some = connecting(pool, at);
    if prefer_connect && some.len() > 0 {
        some
    } else {
        at
    }
}

/// The first of the given positions, from the `k`th on, whose proxy has this address.
pub open spec fn pinned(pool: Seq<Pooled>, at: Seq<int>, pin: (IpAddr, u16), k: int) -> Option<int>
    decreases at.len() - k,
{
    if k < 0 || k >= at.len() {
        None
    } else if (pool[at[k]].proxy.host, pool[at[k]].proxy.port) == pin {
        Some(at[k])
    } else {
        pinned(pool, at, pin, k + 1)
    }
}

/// The position that a selection takes; `None` where no proxy can carry the scheme.
pub open spec fn choice(pool: Seq<Pooled>, ctx: SelectCtx) -> Option<int> {
    let at = tier(pool, ctx);
    if at.len() == 0 {
        None
    } else {
        let turn = biased(pool, at, ctx.prefer_connect);
        match ctx.strategy {
            Strategy::Best => Some(best(pool, at, ctx.prefer_connect)),
            Strategy::RoundRobin => Some(turn[ctx.round_robin_cursor as int % turn.len() as int]),
            Strategy::Random => Some(turn[(ctx.draw as usize) as int % turn.len() as int]),
            Strategy::Sticky => match ctx.sticky {
                Some(pin) => match pinned(pool, at, pin, 0) {
                    Some(i) => Some(i),
                    None => Some(best(pool, at, ctx.prefer_connect)),
                },
                None => Some(best(pool, at, ctx.prefer_connect)),
            },
        }
    }
}

/// Positions in a pool as the model counts them.
pub open spec fn ints(v: Seq<usize>) -> Seq<int> {
    v.map_values(|x: usize| x as int)
}

fn has_connect(p: &Pooled) -> (yes: bool)
    ensures
        yes == connects(*p),
{
    p.proxy.types.contains(Proto::Connect80)
}

fn goes_before(a: &Pooled, b: &Pooled, prefer_connect: bool) -> (yes: bool)
    ensures
        yes == better(*a, *b, prefer_connect),
{
    let ae: i64 = a.proxy.error_rate.order_key();
    let be: i64 = b.proxy.error_rate.order_key();
    let at: i64 = a.proxy.avg_resp_time.order_key();
    let bt: i64 = b.proxy.avg_resp_time.order_key();
    ae < be || (ae == be && at < bt) || (ae == be && at == bt && prefer_connect && has_connect(a)
        && !has_connect(b))
}

fn find_tier(pool: &Vec<Pooled>, ctx: &SelectCtx, ready: bool) -> (out: Vec<usize>)
    ensures
        ints(out@) == tier_upto(pool@, *ctx, ready, pool@.len()),
        forall|k: int| 0 <= k < out@.len() ==> #[trigger] out@[k] < pool@.len(),
{
    let mut out: Vec<usize> = Vec::new();
    let mut i: usize = 0;
    assert(ints(out@) =~= Seq::empty());
    while i < pool.len()
        invariant
            i <= pool@.len(),
            ints(out@) == tier_upto(pool@, *ctx, ready, i as nat),
            forall|k: int| 0 <= k < out@.len() ==> #[trigger] out@[k] < pool@.len(),
        decreases pool@.len() - i,
    {
        let p = &pool[i];
        let free = match p.blocked_until {
            None => true,
            Some(t) => t <= ctx.now,
        };
        if p.proxy.serves(ctx.scheme) && free == ready {
            let ghost before = out@;
            out.push(i);
            assert(ints(out@) =~= ints(before).push(i as int));
        }
        i += 1;
    }
    out
}

fn connect_biased(pool: &Vec<Pooled>, at: Vec<usize>, prefer_connect: bool) -> (out: Vec<usize>)
    requires
        forall|k: int| 0 <= k < at@.len() ==> #[trigger] at@[k] < pool@.len(),
    ensures
        ints(out@) == biased(pool@, ints(at@), prefer_connect),
        forall|k: int| 0 <= k < out@.len() ==> #[trigger] out@[k] < pool@.len(),
        at@.len() > 0 ==> out@.len() > 0,
{
    if !prefer_connect {
        return at;
    }
    let mut out: Vec<usize> = Vec::new();
    let mut i: usize = 0;
    assert(ints(out@) =~= connecting(pool@, ints(at@).take(0)));
    while i < at.len()
        invariant
            i <= at@.len(),
            forall|k: int| 0 <= k < at@.len() ==> #[trigger] at@[k] < pool@.len(),
            forall|k: int| 0 <= k < out@.len() ==> #[trigger] out@[k] < pool@.len(),
            ints(out@) == connecting(pool@, ints(at@).take(i as int)),
        decreases at@.len() - i,
    {
        let ghost upto = ints(at@).take(i + 1);
        assert(upto.drop_last() =~= ints(at@).take(i as int));
        assert(upto.last() == at@[i as int] as int);
        if has_connect(&pool[at[i]]) {
            let ghost before = out@;
            out.push(at[i]);
            assert(ints(out@) =~= ints(before).push(at@[i as int] as int));
        }
        i += 1;
    }
    assert(ints(at@).take(i as int) =~= ints(at@));
    assert(ints(out@).len() == out@.len());
    if out.len() == 0 {
        at
    } else {
        out
    }
}

/// The best of the given positions in the pool; `None` where none are given.
pub fn best_by_priority(pool: &Vec<Pooled>, at: &Vec<usize>, prefer_connect: bool) -> (out: Option<
    usize,
>)
    requires
        forall|k: int| 0 <= k < at@.len() ==> #[trigger] at@[k] < pool@.len(),
    ensures
        match out {
            Some(i) => at@.len() > 0 && i == best(pool@, ints(at@), prefer_connect) && i
                < pool@.len(),
            None => at@.len() == 0,
        },
{
    if at.len() == 0 {
        return None;
    }
    let mut out: usize = at[0];
    let mut i: usize = 1;
    while i < at.len()
        invariant
            1 <= i <= at@.len(),
            out < pool@.len(),
            forall|k: int| 0 <= k < at@.len() ==> #[trigger] at@[k] < pool@.len(),
            out == best_upto(pool@, ints(at@), prefer_connect, i as nat),
        decreases at@.len() - i,
    {
        if goes_before(&pool[at[i]], &pool[out], prefer_connect) {
            out = at[i];
        }
        i += 1;
    }
    Some(out)
}

/// The position of the proxy to serve with. Ready proxies come first and benched ones are a
/// backup; among them the strategy decides. `None` where no proxy can carry the scheme.
pub fn best_for(pool: &Vec<Pooled>, ctx: &SelectCtx) -> (out: Option<usize>)
    ensures
        match out {
            Some(i) => choice(pool@, *ctx) == Some(i as int) && i < pool@.len(),
            None => choice(pool@, *ctx) is None,
        },
{
    let ready = find_tier(pool, ctx, true);
    let at = if ready.len() > 0 {
        ready
    } else {
        find_tier(pool, ctx, false)
    };
    assert(ints(ready@).len() == ready@.len());
    assert(ints(at@) == tier(pool@, *ctx));
    assert(ints(at@).len() == at@.len());
    if at.len() == 0 {
        return None;
    }
    match ctx.strategy {
        Strategy::Best => best_by_priority(pool, &at, ctx.prefer_connect),
        Strategy::RoundRobin => {
            let turn = connect_biased(pool, at, ctx.prefer_connect);
            let k: usize = ctx.round_robin_cursor % turn.len();
            assert(ints(turn@)[k as int] == turn@[k as int]);
            Some(turn[k])
        },
        Strategy::Random => {
            let turn = connect_biased(pool, at, ctx.prefer_connect);
            let drawn: usize = ctx.draw as usize;
            let k: usize = drawn % turn.len();
            assert(ints(turn@)[k as int] == turn@[k as int]);
            Some(turn[k])
        },
        Strategy::Sticky => {
            if let Some(pin) = ctx.sticky {
                let mut k: usize = 0;
                while k < at.len()
                    invariant
                        k <= at@.len(),
                        ints(at@) == tier(pool@, *ctx),
                        ints(at@).len() == at@.len(),
                        at@.len() > 0,
                        ctx.strategy == Strategy::Sticky,
                        ctx.sticky == Some(pin),
                        forall|j: int| 0 <= j < at@.len() ==> #[trigger] at@[j] < pool@.len(),
                        pinned(pool@, ints(at@), pin, 0) == pinned(pool@, ints(at@), pin, k as int),
                    decreases at@.len() - k,
                {
                    let p = &pool[at[k]].proxy;
                    assert(ints(at@)[k as int] == at@[k as int]);
                    if p.host == pin.0 && p.port == pin.1 {
                        return Some(at[k]);
                    }
                    k += 1;
                }
            }
            best_by_priority(pool, &at, ctx.prefer_connect)
        },
    }
}

proof fn lemma_tier(pool: Seq<Pooled>, ctx: SelectCtx, ready: bool, n: nat)
    requires
        n <= pool.len(),
    ensures
        forall|k: int|
            0 <= k < tier_upto(pool, ctx, ready, n).len() ==> 0 <= #[trigger] tier_upto(
                pool,
                ctx,
                ready,
                n,
            )[k] < n && in_tier(pool[tier_upto(pool, ctx, ready, n)[k]], ctx, ready),
        forall|i: int|
            0 <= i < n && in_tier(#[trigger] pool[i], ctx, ready) ==> tier_upto(
                pool,
                ctx,
                ready,
                n,
            ).contains(i),
    decreases n,
{
    if n > 0 {
        lemma_tier(pool, ctx, ready, (n - 1) as nat);
        let before = tier_upto(pool, ctx, ready, (n - 1) as nat);
        let now = tier_upto(pool, ctx, ready, n);
        assert forall|i: int| 0 <= i < n && in_tier(#[trigger] pool[i], ctx, ready) implies now.contains(
            i,
        ) by {
            if i < n - 1 {
                let k = choose|k: int| 0 <= k < before.len() && before[k] == i;
                assert(now[k] == i);
            } else {
                assert(now[now.len() - 1] == i);
            }
        }
    }
}

proof fn lemma_best(pool: Seq<Pooled>, at: Seq<int>, prefer: bool, n: nat) -> (k: int)
    requires
        1 <= n <= at.len(),
    ensures
        0 <= k < n,
        best_upto(pool, at, prefer, n) == at[k],
        forall|j: int| 0 <= j < n ==> !better(pool[#[trigger] at[j]], pool[at[k]], prefer),
        forall|j: int| 0 <= j < k ==> better(pool[at[k]], pool[#[trigger] at[j]], prefer),
    decreases n,
{
    if n == 1 {
        0
    } else {
        let b = lemma_best(pool, at, prefer, (n - 1) as nat);
        if better(pool[at[n - 1]], pool[at[b]], prefer) {
            n - 1
        } else {
            b
        }
    }
}

/// The best of some positions is one of them, none of the others goes before it, and it goes
/// before every one that is listed earlier.
pub proof fn law_best_is_first_of_the_least(pool: Seq<Pooled>, at: Seq<int>, prefer: bool)
    requires
        at.len() > 0,
    ensures
        exists|k: int|
            0 <= k < at.len() && #[trigger] at[k] == best(pool, at, prefer) && forall|j: int|
                0 <= j < k ==> better(pool[at[k]], pool[#[trigger] at[j]], prefer),
        forall|j: int|
            0 <= j < at.len() ==> !better(pool[#[trigger] at[j]], pool[best(pool, at, prefer)], prefer),
{
    let k = lemma_best(pool, at, prefer, at.len());
}

/// Health comes before the preference for `CONNECT:80`: a proxy with a lower error rate, or with
/// the same error rate and a shorter response time, goes first whether it is preferred or not.
pub proof fn law_health_dominates_preference(a: Pooled, b: Pooled, prefer: bool)
    requires
        ({
            ||| a.proxy.error_rate.rank() < b.proxy.error_rate.rank()
            ||| a.proxy.error_rate == b.proxy.error_rate && a.proxy.avg_resp_time.rank()
                < b.proxy.avg_resp_time.rank()
        }),
    ensures
        better(a, b, prefer),
        !better(b, a, prefer),
{
}

proof fn lemma_connecting(pool: Seq<Pooled>, at: Seq<int>)
    ensures
        forall|k: int|
            0 <= k < connecting(pool, at).len() ==> at.contains(#[trigger] connecting(pool, at)[k]),
    decreases at.len(),
{
    if at.len() > 0 {
        lemma_connecting(pool, at.drop_last());
        let before = connecting(pool, at.drop_last());
        let now = connecting(pool, at);
        assert forall|k: int| 0 <= k < now.len() implies at.contains(#[trigger] now[k]) by {
            if k < before.len() {
                assert(now[k] == before[k]);
                let j = choose|j: int| 0 <= j < at.drop_last().len() && at.drop_last()[j] == now[k];
                assert(at[j] == now[k]);
            } else {
                assert(at[at.len() - 1] == now[k]);
            }
        }
    }
}

proof fn lemma_pinned(pool: Seq<Pooled>, at: Seq<int>, pin: (IpAddr, u16), k: int)
    requires
        0 <= k,
    ensures
        pinned(pool, at, pin, k) matches Some(i) ==> at.contains(i) && (
            pool[i].proxy.host,
            pool[i].proxy.port,
        ) == pin,
        (exists|j: int|
            k <= j < at.len() && (pool[#[trigger] at[j]].proxy.host, pool[at[j]].proxy.port) == pin)
            ==> pinned(pool, at, pin, k) is Some,
    decreases at.len() - k,
{
    if k < at.len() {
        lemma_pinned(pool, at, pin, k + 1);
    }
}

proof fn lemma_choice_in_tier(pool: Seq<Pooled>, ctx: SelectCtx)
    ensures
        choice(pool, ctx) matches Some(i) ==> tier(pool, ctx).contains(i),
        choice(pool, ctx) is Some <==> tier(pool, ctx).len() > 0,
{
    let at = tier(pool, ctx);
    if at.len() > 0 {
        let k = lemma_best(pool, at, ctx.prefer_connect, at.len());
        assert(at.contains(at[k]));
        lemma_connecting(pool, at);
        if let Some(pin) = ctx.sticky {
            lemma_pinned(pool, at, pin, 0);
        }
        let turn = biased(pool, at, ctx.prefer_connect);
        let c = ctx.round_robin_cursor as int % turn.len() as int;
        let d = (ctx.draw as usize) as int % turn.len() as int;
        assert(0 <= c < turn.len() && 0 <= d < turn.len());
        if turn == at {
            assert(at.contains(turn[c]) && at.contains(turn[d]));
        } else {
            let some = connecting(pool, at);
            assert(at.contains(some[c]) && at.contains(some[d]));
        }
    }
}

/// Whatever the strategy, the proxy chosen is in the pool and can carry the scheme; and one is
/// chosen if any in the pool can, benched or not.
pub proof fn law_chosen_proxy_carries_scheme(pool: Seq<Pooled>, ctx: SelectCtx)
    ensures
        choice(pool, ctx) matches Some(i) ==> 0 <= i < pool.len() && proxy::carries(
            pool[i].proxy.types,
            ctx.scheme,
        ),
        choice(pool, ctx) is Some <==> exists|i: int|
            0 <= i < pool.len() && proxy::carries(#[trigger] pool[i].proxy.types, ctx.scheme),
{
    lemma_choice_in_tier(pool, ctx);
    lemma_tier(pool, ctx, true, pool.len());
    lemma_tier(pool, ctx, false, pool.len());
    let ready = tier_upto(pool, ctx, true, pool.len());
    let benched = tier_upto(pool, ctx, false, pool.len());
    let at = tier(pool, ctx);
    if let Some(i) = choice(pool, ctx) {
        let k = choose|k: int| 0 <= k < at.len() && at[k] == i;
        assert(0 <= at[k] < pool.len());
        assert(proxy::carries(pool[i].proxy.types, ctx.scheme));
    }
    if exists|i: int| 0 <= i < pool.len() && proxy::carries(#[trigger] pool[i].proxy.types, ctx.scheme) {
        let i = choose|i: int|
            0 <= i < pool.len() && proxy::carries(#[trigger] pool[i].proxy.types, ctx.scheme);
        let r = is_ready(pool[i], ctx.now);
        assert(in_tier(pool[i], ctx, r));
        if r {
            assert(ready.contains(i));
        } else {
            assert(benched.contains(i));
        }
        assert(at.len() > 0);
    }
}

/// Whatever the strategy, a benched proxy is chosen only where no ready one can carry the scheme.
pub proof fn law_ready_beats_benched(pool: Seq<Pooled>, ctx: SelectCtx, j: int)
    requires
        0 <= j < pool.len(),
        proxy::carries(pool[j].proxy.types, ctx.scheme),
        is_ready(pool[j], ctx.now),
    ensures
        choice(pool, ctx) matches Some(i) && is_ready(pool[i], ctx.now),
{
    lemma_choice_in_tier(pool, ctx);
    lemma_tier(pool, ctx, true, pool.len());
    let ready = tier_upto(pool, ctx, true, pool.len());
    assert(in_tier(pool[j], ctx, true));
    assert(ready.contains(j));
    let at = tier(pool, ctx);
    let i = choice(pool, ctx)->0;
    let k = choose|k: int| 0 <= k < at.len() && at[k] == i;
    assert(in_tier(pool[at[k]], ctx, true));
}

/// A client that is pinned to a proxy gets a proxy at that address while one is among those that
/// may be chosen.
pub proof fn law_sticky_keeps_its_pin(pool: Seq<Pooled>, ctx: SelectCtx, pin: (IpAddr, u16), k: int)
    requires
        ctx.strategy == Strategy::Sticky,
        ctx.sticky == Some(pin),
        0 <= k < tier(pool, ctx).len(),
        (pool[tier(pool, ctx)[k]].proxy.host, pool[tier(pool, ctx)[k]].proxy.port) == pin,
    ensures
        choice(pool, ctx) matches Some(i) && (pool[i].proxy.host, pool[i].proxy.port) == pin,
{
    lemma_pinned(pool, tier(pool, ctx), pin, 0);
}

/// As the cursor counts up by as many as take turns, it comes by each of them in order and then
/// starts over.
pub proof fn law_round_robin_takes_turns(pool: Seq<Pooled>, ctx: SelectCtx, round: nat, k: int)
    requires
        ctx.strategy == Strategy::RoundRobin,
        tier(pool, ctx).len() > 0,
        0 <= k < biased(pool, tier(pool, ctx), ctx.prefer_connect).len(),
        ctx.round_robin_cursor == round * biased(pool, tier(pool, ctx), ctx.prefer_connect).len() + k,
    ensures
        choice(pool, ctx) == Some(biased(pool, tier(pool, ctx), ctx.prefer_connect)[k]),
{
    let n = biased(pool, tier(pool, ctx), ctx.prefer_connect).len() as int;
    vstd::arithmetic::div_mod::lemma_fundamental_div_mod_converse(
        ctx.round_robin_cursor as int,
        n,
        round as int,
        k,
    );
}

/// Whether the proxy at a position may serve: it can carry the scheme, and it is ready, or benched
/// where no proxy that can carry the scheme is ready.
pub open spec fn may_serve(pool: Seq<Pooled>, ctx: SelectCtx, i: int) -> bool {
    &&& 0 <= i < pool.len()
    &&& proxy::carries(pool[i].proxy.types, ctx.scheme)
    &&& (pool[i].blocked_until matches Some(t) && t > ctx.now) ==> forall|j: int|
        0 <= j < pool.len() && proxy::carries(#[trigger] pool[j].proxy.types, ctx.scheme) ==> (
        pool[j].blocked_until matches Some(t) && t > ctx.now)
}

/// Whether the proxy at a position takes its turn: it may serve, and where `CONNECT:80` is preferred
/// it speaks that, or none that may serve does.
pub open spec fn takes_turn(pool: Seq<Pooled>, ctx: SelectCtx, i: int) -> bool {
    &&& may_serve(pool, ctx, i)
    &&& ctx.prefer_connect && pool[i].proxy.types.connect80 is None ==> forall|j: int|
        #[trigger] may_serve(pool, ctx, j) ==> pool[j].proxy.types.connect80 is None
}

/// Whether some positions are exactly those that satisfy a condition, in order.
pub open spec fn lists_exactly(at: Seq<int>, cond: spec_fn(int) -> bool) -> bool {
    &&& forall|a: int, b: int| 0 <= a < b < at.len() ==> #[trigger] at[a] < #[trigger] at[b]
    &&& forall|k: int| 0 <= k < at.len() ==> cond(#[trigger] at[k])
    &&& forall|i: int| #[trigger] cond(i) ==> at.contains(i)
}

proof fn lemma_lists_are_one(a: Seq<int>, b: Seq<int>, cond: spec_fn(int) -> bool)
    requires
        lists_exactly(a, cond),
        lists_exactly(b, cond),
    ensures
        a == b,
{
    lemma_list_is_prefix(a, b, cond, a.len());
    lemma_list_is_prefix(b, a, cond, b.len());
    assert(a =~= b);
}

proof fn lemma_list_is_prefix(a: Seq<int>, b: Seq<int>, cond: spec_fn(int) -> bool, n: nat)
    requires
        lists_exactly(a, cond),
        lists_exactly(b, cond),
        n <= a.len(),
    ensures
        n <= b.len(),
        forall|k: int| 0 <= k < n ==> #[trigger] a[k] == b[k],
    decreases n,
{
    if n > 0 {
        lemma_list_is_prefix(a, b, cond, (n - 1) as nat);
        let m = n - 1;
        assert(cond(a[m]));
        let k = choose|k: int| 0 <= k < b.len() && b[k] == a[m];
        if k < m {
            assert(a[k] == b[k]);
            assert(a[k] < a[m]);
        }
        if b[m] != a[m] {
            assert(m < k);
            assert(b[m] < b[k]);
            assert(cond(b[m]));
            let j = choose|j: int| 0 <= j < a.len() && a[j] == b[m];
            if j < m {
                assert(a[j] == b[j]);
                assert(b[j] < b[m]);
            } else if j > m {
                assert(a[m] < a[j]);
            }
        }
    }
}

proof fn lemma_tier_in_order(pool: Seq<Pooled>, ctx: SelectCtx, ready: bool, n: nat)
    requires
        n <= pool.len(),
    ensures
        forall|a: int, b: int|
            0 <= a < b < tier_upto(pool, ctx, ready, n).len() ==> #[trigger] tier_upto(
                pool,
                ctx,
                ready,
                n,
            )[a] < #[trigger] tier_upto(pool, ctx, ready, n)[b],
    decreases n,
{
    if n > 0 {
        lemma_tier_in_order(pool, ctx, ready, (n - 1) as nat);
        lemma_tier(pool, ctx, ready, (n - 1) as nat);
        let before = tier_upto(pool, ctx, ready, (n - 1) as nat);
        let now = tier_upto(pool, ctx, ready, n);
        assert forall|a: int, b: int| 0 <= a < b < now.len() implies #[trigger] now[a]
            < #[trigger] now[b] by {
            assert(now[a] == before[a]);
            if b < before.len() {
                assert(now[b] == before[b]);
            }
        }
    }
}

proof fn lemma_tier_may_serve(pool: Seq<Pooled>, ctx: SelectCtx)
    ensures
        lists_exactly(tier(pool, ctx), |i: int| may_serve(pool, ctx, i)),
{
    let ready = tier_upto(pool, ctx, true, pool.len());
    let benched = tier_upto(pool, ctx, false, pool.len());
    let at = tier(pool, ctx);
    lemma_tier(pool, ctx, true, pool.len());
    lemma_tier(pool, ctx, false, pool.len());
    lemma_tier_in_order(pool, ctx, true, pool.len());
    lemma_tier_in_order(pool, ctx, false, pool.len());
    let cond = |i: int| may_serve(pool, ctx, i);
    assert forall|k: int| 0 <= k < at.len() implies cond(#[trigger] at[k]) by {
        let i = at[k];
        if ready.len() > 0 {
            assert(in_tier(pool[ready[k]], ctx, true));
        } else {
            assert(in_tier(pool[benched[k]], ctx, false));
            assert forall|j: int|
                0 <= j < pool.len() && proxy::carries(#[trigger] pool[j].proxy.types, ctx.scheme) implies (
            pool[j].blocked_until matches Some(t) && t > ctx.now) by {
                if is_ready(pool[j], ctx.now) {
                    assert(in_tier(pool[j], ctx, true));
                    assert(ready.contains(j));
                }
            }
        }
        assert(may_serve(pool, ctx, i));
    }
    assert forall|i: int| #[trigger] cond(i) implies at.contains(i) by {
        if is_ready(pool[i], ctx.now) {
            assert(in_tier(pool[i], ctx, true));
            assert(ready.contains(i));
        } else {
            assert(in_tier(pool[i], ctx, false));
            if ready.len() > 0 {
                let j = ready[0];
                assert(in_tier(pool[j], ctx, true));
                assert(proxy::carries(pool[j].proxy.types, ctx.scheme));
            }
        }
    }
}

proof fn lemma_connecting_in_order(pool: Seq<Pooled>, at: Seq<int>)
    requires
        forall|a: int, b: int| 0 <= a < b < at.len() ==> #[trigger] at[a] < #[trigger] at[b],
    ensures
        forall|a: int, b: int|
            0 <= a < b < connecting(pool, at).len() ==> #[trigger] connecting(pool, at)[a]
                < #[trigger] connecting(pool, at)[b],
        forall|k: int|
            0 <= k < connecting(pool, at).len() ==> connects(
                pool[#[trigger] connecting(pool, at)[k]],
            ),
        forall|k: int|
            0 <= k < at.len() && connects(pool[#[trigger] at[k]]) ==> connecting(pool, at).contains(
                at[k],
            ),
    decreases at.len(),
{
    if at.len() > 0 {
        let less = at.drop_last();
        assert forall|a: int, b: int| 0 <= a < b < less.len() implies #[trigger] less[a]
            < #[trigger] less[b] by {
            assert(less[a] == at[a] && less[b] == at[b]);
        }
        lemma_connecting_in_order(pool, less);
        lemma_connecting(pool, less);
        let before = connecting(pool, less);
        let now = connecting(pool, at);
        assert forall|a: int, b: int| 0 <= a < b < now.len() implies #[trigger] now[a]
            < #[trigger] now[b] by {
            assert(now[a] == before[a]);
            if b < before.len() {
                assert(now[b] == before[b]);
            } else {
                assert(less.contains(before[a]));
                let j = choose|j: int| 0 <= j < less.len() && less[j] == before[a];
                assert(at[j] < at[at.len() - 1]);
            }
        }
        assert forall|k: int| 0 <= k < at.len() && connects(pool[#[trigger] at[k]]) implies now.contains(
            at[k],
        ) by {
            if k < less.len() {
                assert(less[k] == at[k]);
                assert(before.contains(less[k]));
                let j = choose|j: int| 0 <= j < before.len() && before[j] == less[k];
                assert(now[j] == at[k]);
            } else {
                assert(now[now.len() - 1] == at[k]);
            }
        }
    }
}

proof fn lemma_turns(pool: Seq<Pooled>, ctx: SelectCtx)
    ensures
        lists_exactly(
            biased(pool, tier(pool, ctx), ctx.prefer_connect),
            |i: int| takes_turn(pool, ctx, i),
        ),
{
    let at = tier(pool, ctx);
    let some = connecting(pool, at);
    let turn = biased(pool, at, ctx.prefer_connect);
    let serve = |i: int| may_serve(pool, ctx, i);
    let cond = |i: int| takes_turn(pool, ctx, i);
    lemma_tier_may_serve(pool, ctx);
    lemma_connecting(pool, at);
    lemma_connecting_in_order(pool, at);
    assert forall|k: int| 0 <= k < turn.len() implies cond(#[trigger] turn[k]) by {
        if ctx.prefer_connect && some.len() > 0 {
            assert(at.contains(some[k]));
            let j = choose|j: int| 0 <= j < at.len() && at[j] == some[k];
            assert(serve(at[j]));
            assert(connects(pool[some[k]]));
        } else {
            assert(serve(at[k]));
            if ctx.prefer_connect {
                assert forall|j: int| #[trigger] may_serve(pool, ctx, j) implies pool[j].proxy.types.connect80
                    is None by {
                    assert(serve(j));
                    assert(at.contains(j));
                    let m = choose|m: int| 0 <= m < at.len() && at[m] == j;
                    if connects(pool[at[m]]) {
                        assert(some.contains(at[m]));
                    }
                }
            }
        }
    }
    assert forall|i: int| #[trigger] cond(i) implies turn.contains(i) by {
        assert(serve(i));
        assert(at.contains(i));
        let m = choose|m: int| 0 <= m < at.len() && at[m] == i;
        if ctx.prefer_connect && some.len() > 0 {
            if !connects(pool[i]) {
                assert(at.contains(some[0]));
                let j = choose|j: int| 0 <= j < at.len() && at[j] == some[0];
                assert(serve(at[j]));
                assert(may_serve(pool, ctx, some[0]));
                assert(connects(pool[some[0]]));
            }
            assert(connects(pool[at[m]]));
            assert(some.contains(at[m]));
        }
    }
}

/// Under the random strategy every proxy that takes its turn is drawn, all as evenly: of `n` of them
/// the draw that leaves the remainder `k` gives the `k`th, and only such a draw does.
pub proof fn law_random_draws_each_evenly(pool: Seq<Pooled>, ctx: SelectCtx, turn: Seq<int>, k: int)
    requires
        ctx.strategy == Strategy::Random,
        lists_exactly(turn, |i: int| takes_turn(pool, ctx, i)),
        0 <= k < turn.len(),
    ensures
        (ctx.draw as usize) as int % turn.len() as int == k <==> choice(pool, ctx) == Some(turn[k]),
{
    lemma_turns(pool, ctx);
    lemma_tier_may_serve(pool, ctx);
    let cond = |i: int| takes_turn(pool, ctx, i);
    let serve = |i: int| may_serve(pool, ctx, i);
    lemma_lists_are_one(turn, biased(pool, tier(pool, ctx), ctx.prefer_connect), cond);
    assert(cond(turn[k]));
    assert(serve(turn[k]));
    assert(tier(pool, ctx).contains(turn[k]));
    let d = (ctx.draw as usize) as int % turn.len() as int;
    if d < k {
        assert(turn[d] < turn[k]);
    } else if k < d {
        assert(turn[k] < turn[d]);
    }
}

/// Under the round-robin strategy the cursor goes around the proxies that take their turn: of `n` of
/// them the cursor that leaves the remainder `k` gives the `k`th, and only such a one does.
pub proof fn law_round_robin_goes_around(pool: Seq<Pooled>, ctx: SelectCtx, turn: Seq<int>, k: int)
    requires
        ctx.strategy == Strategy::RoundRobin,
        lists_exactly(turn, |i: int| takes_turn(pool, ctx, i)),
        0 <= k < turn.len(),
    ensures
        ctx.round_robin_cursor as int % turn.len() as int == k <==> choice(pool, ctx) == Some(turn[k]),
{
    lemma_turns(pool, ctx);
    lemma_tier_may_serve(pool, ctx);
    let cond = |i: int| takes_turn(pool, ctx, i);
    let serve = |i: int| may_serve(pool, ctx, i);
    lemma_lists_are_one(turn, biased(pool, tier(pool, ctx), ctx.prefer_connect), cond);
    assert(cond(turn[k]));
    assert(serve(turn[k]));
    assert(tier(pool, ctx).contains(turn[k]));
    let d = ctx.round_robin_cursor as int % turn.len() as int;
    if d < k {
        assert(turn[d] < turn[k]);
    } else if k < d {
        assert(turn[k] < turn[d]);
    }
}

/// Whatever the strategy, one of the proxies that may serve is chosen, and none only where none may.
pub proof fn law_choice_is_among_those_that_may_serve(pool: Seq<Pooled>, ctx: SelectCtx)
    ensures
        choice(pool, ctx) matches Some(i) ==> may_serve(pool, ctx, i),
        choice(pool, ctx) is None ==> forall|i: int| !(#[trigger] may_serve(pool, ctx, i)),
{
    lemma_choice_in_tier(pool, ctx);
    lemma_tier_may_serve(pool, ctx);
    let at = tier(pool, ctx);
    let serve = |i: int| may_serve(pool, ctx, i);
    if let Some(i) = choice(pool, ctx) {
        let k = choose|k: int| 0 <= k < at.len() && at[k] == i;
        assert(serve(at[k]));
    } else {
        assert forall|i: int| !(#[trigger] may_serve(pool, ctx, i)) by {
            if may_serve(pool, ctx, i) {
                assert(serve(i));
                assert(at.contains(i));
            }
        }
    }
}

/// The best is chosen by health: no proxy that may serve fails less often, none that fails as often
/// answers sooner; of those as healthy one that speaks `CONNECT:80` where that is preferred, and of
/// those still alike the first.
pub proof fn law_best_choice_is_the_healthiest(pool: Seq<Pooled>, ctx: SelectCtx, j: int)
    requires
        ctx.strategy == Strategy::Best || (ctx.strategy == Strategy::Sticky && ctx.sticky is None),
        may_serve(pool, ctx, j),
    ensures
        choice(pool, ctx) matches Some(i) && {
            let (a, b) = (pool[i].proxy, pool[j].proxy);
            &&& may_serve(pool, ctx, i)
            &&& a.error_rate.rank() <= b.error_rate.rank()
            &&& a.error_rate.rank() == b.error_rate.rank() ==> a.avg_resp_time.rank()
                <= b.avg_resp_time.rank()
            &&& (a.error_rate.rank() == b.error_rate.rank() && a.avg_resp_time.rank()
                == b.avg_resp_time.rank() && ctx.prefer_connect && b.types.connect80 is Some)
                ==> a.types.connect80 is Some
            &&& (a.error_rate.rank() == b.error_rate.rank() && a.avg_resp_time.rank()
                == b.avg_resp_time.rank() && (!ctx.prefer_connect || (a.types.connect80 is Some) == (
            b.types.connect80 is Some))) ==> i <= j
        },
{
    lemma_tier_may_serve(pool, ctx);
    law_choice_is_among_those_that_may_serve(pool, ctx);
    let at = tier(pool, ctx);
    let serve = |i: int| may_serve(pool, ctx, i);
    assert(serve(j));
    assert(at.contains(j));
    let m = choose|m: int| 0 <= m < at.len() && at[m] == j;
    let k = lemma_best(pool, at, ctx.prefer_connect, at.len());
    assert(!better(pool[at[m]], pool[at[k]], ctx.prefer_connect));
    if m < k {
        assert(better(pool[at[k]], pool[at[m]], ctx.prefer_connect));
    } else if k < m {
        assert(at[k] < at[m]);
    }
}

/// A client that is pinned gets the first proxy at that address among those that may serve; where
/// there is none, it gets what a client without a pin would.
pub proof fn law_pin_decides_while_it_may_serve(
    pool: Seq<Pooled>,
    ctx: SelectCtx,
    other: SelectCtx,
    pin: (IpAddr, u16),
)
    requires
        ctx.strategy == Strategy::Sticky,
        ctx.sticky == Some(pin),
        other == (SelectCtx { strategy: Strategy::Best, ..ctx }),
    ensures
        (exists|j: int|
            #[trigger] may_serve(pool, ctx, j) && pool[j].proxy.host == pin.0 && pool[j].proxy.port
                == pin.1) ==> (choice(pool, ctx) matches Some(i) && may_serve(pool, ctx, i)
            && pool[i].proxy.host == pin.0 && pool[i].proxy.port == pin.1 && forall|j: int|
            #[trigger] may_serve(pool, ctx, j) && pool[j].proxy.host == pin.0 && pool[j].proxy.port
                == pin.1 ==> i <= j),
        (forall|j: int| #[trigger]
            may_serve(pool, ctx, j) ==> !(pool[j].proxy.host == pin.0 && pool[j].proxy.port == pin.1))
            ==> choice(pool, ctx) == choice(pool, other),
{
    lemma_tier_may_serve(pool, ctx);
    law_choice_is_among_those_that_may_serve(pool, ctx);
    let at = tier(pool, ctx);
    let serve = |i: int| may_serve(pool, ctx, i);
    lemma_pinned(pool, at, pin, 0);
    lemma_same_tier(pool, ctx, other, true, pool.len());
    lemma_same_tier(pool, ctx, other, false, pool.len());
    if exists|j: int|
        #[trigger] may_serve(pool, ctx, j) && pool[j].proxy.host == pin.0 && pool[j].proxy.port
            == pin.1 {
        let j = choose|j: int|
            #[trigger] may_serve(pool, ctx, j) && pool[j].proxy.host == pin.0 && pool[j].proxy.port
                == pin.1;
        assert(serve(j));
        assert(at.contains(j));
        let m = choose|m: int| 0 <= m < at.len() && at[m] == j;
        assert((pool[at[m]].proxy.host, pool[at[m]].proxy.port) == pin);
        let first = lemma_pinned_is_first(pool, at, pin, 0);
        assert forall|n: int|
            #[trigger] may_serve(pool, ctx, n) && pool[n].proxy.host == pin.0 && pool[n].proxy.port
                == pin.1 implies at[first] <= n by {
            assert(serve(n));
            assert(at.contains(n));
            let k = choose|k: int| 0 <= k < at.len() && at[k] == n;
            if first < k {
                assert(at[first] < at[k]);
            }
        }
    } else {
        if let Some(i) = pinned(pool, at, pin, 0) {
            let m = choose|m: int| 0 <= m < at.len() && at[m] == i;
            assert(serve(at[m]));
            assert(may_serve(pool, ctx, i));
        }
    }
}

proof fn lemma_pinned_is_first(pool: Seq<Pooled>, at: Seq<int>, pin: (IpAddr, u16), k: int) -> (m:
    int)
    requires
        0 <= k,
        pinned(pool, at, pin, k) is Some,
    ensures
        k <= m < at.len(),
        pinned(pool, at, pin, k) == Some(at[m]),
        forall|j: int|
            k <= j < m ==> (pool[#[trigger] at[j]].proxy.host, pool[at[j]].proxy.port) != pin,
    decreases at.len() - k,
{
    if (pool[at[k]].proxy.host, pool[at[k]].proxy.port) == pin {
        k
    } else {
        lemma_pinned_is_first(pool, at, pin, k + 1)
    }
}

proof fn lemma_same_tier(pool: Seq<Pooled>, a: SelectCtx, b: SelectCtx, ready: bool, n: nat)
    requires
        a.scheme == b.scheme,
        a.now == b.now,
    ensures
        tier_upto(pool, a, ready, n) == tier_upto(pool, b, ready, n),
    decreases n,
{
    if n > 0 {
        lemma_same_tier(pool, a, b, ready, (n - 1) as nat);
    }
}

/// A step of the generator takes no two states to the same one: none is reached more often than
/// another.
pub proof fn law_generator_mixes_its_state(x: u64, y: u64)
    ensures
        x != y ==> xorshift(x) != xorshift(y),
{
    let (a, b) = (x ^ (x << 13), y ^ (y << 13));
    let (c, d) = (a ^ (a >> 7), b ^ (b >> 7));
    assert(x != y ==> x ^ (x << 13) != y ^ (y << 13)) by (bit_vector);
    assert(a != b ==> a ^ (a >> 7) != b ^ (b >> 7)) by (bit_vector);
    assert(c != d ==> c ^ (c << 17) != d ^ (d << 17)) by (bit_vector);
}

} // verus!

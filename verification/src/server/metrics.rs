//! The state of the pool as text for a metrics collector.
use crate::server::control;
use crate::server::pool::PoolSnapshot;
use crate::text;
use vstd::prelude::*;
use vstd::string::*;
use vstd::utf8::*;

verus! {

/// The means of a pool, each written out with two decimal places.
#[derive(Debug, PartialEq, Eq)]
pub struct MeanTexts {
    pub error_rate: String,
    pub resp_time: String,
    pub probe_latency: String,
}

/// The heading of a metric: what it is, and its kind.
pub open spec fn heading(name: Seq<char>, help: Seq<char>, kind: Seq<char>) -> Seq<char> {
    "# HELP "@ + name + " "@ + help + "\n# TYPE "@ + name + " "@ + kind + "\n"@
}

/// A metric with one value.
pub open spec fn metric(name: Seq<char>, help: Seq<char>, kind: Seq<char>, value: Seq<char>) -> Seq<
    char,
> {
    heading(name, help, kind) + name + " "@ + value + "\n"@
}

/// The state of the pool as text for a metrics collector.
pub open spec fn metrics_text(
    s: PoolSnapshot,
    means: MeanTexts,
    evictions: u64,
    rotations: u64,
) -> Seq<char> {
    heading(
        "proxybroker_pool_size"@,
        "Proxies currently available in the pool."@,
        "gauge"@,
    ) + "proxybroker_pool_size{scheme=\"http\"} "@ + text::decimal(s.http as nat)
        + "\nproxybroker_pool_size{scheme=\"https\"} "@ + text::decimal(s.https as nat) + "\n"@
        + metric(
        "proxybroker_pool_error_rate_avg"@,
        "Mean proxy error rate over the pool."@,
        "gauge"@,
        means.error_rate@,
    ) + metric(
        "proxybroker_pool_resp_time_avg_seconds"@,
        "Mean proxy response time over the pool."@,
        "gauge"@,
        means.resp_time@,
    ) + metric(
        "proxybroker_pool_probe_latency_avg_seconds"@,
        "Mean judge-probe latency (check-time) over the pool."@,
        "gauge"@,
        means.probe_latency@,
    ) + metric(
        "proxybroker_evictions_total"@,
        "Proxies hard-evicted from the pool."@,
        "counter"@,
        text::decimal(evictions as nat),
    ) + metric(
        "proxybroker_rotations_total"@,
        "Mid-request rotations to a different proxy."@,
        "counter"@,
        text::decimal(rotations as nat),
    )
}

fn push_heading(out: &mut String, name: &str, help: &str, kind: &str)
    ensures
        final(out)@ == old(out)@ + heading(name@, help@, kind@),
{
    out.append("# HELP ");
    out.append(name);
    out.append(" ");
    out.append(help);
    out.append("\n# TYPE ");
    out.append(name);
    out.append(" ");
    out.append(kind);
    out.append("\n");
    assert(out@ =~= old(out)@ + heading(name@, help@, kind@));
}

fn push_metric(out: &mut String, name: &str, help: &str, kind: &str, value: &str)
    ensures
        final(out)@ == old(out)@ + metric(name@, help@, kind@, value@),
{
    push_heading(out, name, help, kind);
    out.append(name);
    out.append(" ");
    out.append(value);
    out.append("\n");
    assert(out@ =~= old(out)@ + metric(name@, help@, kind@, value@));
}

fn count_text(n: u64) -> (out: String)
    ensures
        out@ == text::decimal(n as nat),
{
    let mut out = String::new();
    text::push_decimal(&mut out, n);
    assert(out@ =~= text::decimal(n as nat));
    out
}

/// The state of the pool as text for a metrics collector. The means come written out.
pub fn render_metrics(s: &PoolSnapshot, means: &MeanTexts, evictions: u64, rotations: u64) -> (out:
    String)
    ensures
        out@ == metrics_text(*s, *means, evictions, rotations),
{
    let mut out = String::new();
    push_heading(
        &mut out,
        "proxybroker_pool_size",
        "Proxies currently available in the pool.",
        "gauge",
    );
    out.append("proxybroker_pool_size{scheme=\"http\"} ");
    text::push_decimal(&mut out, s.http as u64);
    out.append("\nproxybroker_pool_size{scheme=\"https\"} ");
    text::push_decimal(&mut out, s.https as u64);
    out.append("\n");
    push_metric(
        &mut out,
        "proxybroker_pool_error_rate_avg",
        "Mean proxy error rate over the pool.",
        "gauge",
        means.error_rate.as_str(),
    );
    push_metric(
        &mut out,
        "proxybroker_pool_resp_time_avg_seconds",
        "Mean proxy response time over the pool.",
        "gauge",
        means.resp_time.as_str(),
    );
    push_metric(
        &mut out,
        "proxybroker_pool_probe_latency_avg_seconds",
        "Mean judge-probe latency (check-time) over the pool.",
        "gauge",
        means.probe_latency.as_str(),
    );
    push_metric(
        &mut out,
        "proxybroker_evictions_total",
        "Proxies hard-evicted from the pool.",
        "counter",
        count_text(evictions).as_str(),
    );
    push_metric(
        &mut out,
        "proxybroker_rotations_total",
        "Mid-request rotations to a different proxy.",
        "counter",
        count_text(rotations).as_str(),
    );
    assert(out@ =~= metrics_text(*s, *means, evictions, rotations));
    out
}

/// The response that carries a page of metrics.
pub open spec fn metrics_response_text(body: Seq<char>) -> Seq<char> {
    "HTTP/1.1 200 OK\r\nContent-Type: text/plain; version=0.0.4\r\nContent-Length: "@
        + text::decimal(encode_utf8(body).len()) + "\r\nConnection: close\r\n\r\n"@ + body
}

/// The response that carries a page of metrics.
pub fn metrics_response(body: &str) -> (out: String)
    ensures
        out@ == metrics_response_text(body@),
{
    let mut out = String::new();
    out.append("HTTP/1.1 200 OK\r\nContent-Type: text/plain; version=0.0.4\r\nContent-Length: ");
    control::push_byte_count(&mut out, body);
    out.append("\r\nConnection: close\r\n\r\n");
    out.append(body);
    assert(out@ =~= metrics_response_text(body@));
    out
}

/// A metric is given by its help, its kind and a line with its name and value.
pub proof fn law_metric_has_help_kind_and_value(
    name: Seq<char>,
    help: Seq<char>,
    kind: Seq<char>,
    value: Seq<char>,
)
    ensures
        metric(name, help, kind, value) == "# HELP "@ + name + " "@ + help + "\n"@ + ("# TYPE "@ + name
            + " "@ + kind + "\n"@) + (name + " "@ + value + "\n"@),
{
    reveal_strlit("\n# TYPE ");
    reveal_strlit("\n");
    reveal_strlit("# TYPE ");
    assert("\n# TYPE "@ =~= "\n"@ + "# TYPE "@);
    assert(metric(name, help, kind, value) =~= "# HELP "@ + name + " "@ + help + "\n"@ + ("# TYPE "@
        + name + " "@ + kind + "\n"@) + (name + " "@ + value + "\n"@));
}

/// The page of metrics holds, in this order, how many proxies can carry each scheme, the three means,
/// how many proxies were evicted and how often requests rotated, each value under its own name.
pub proof fn law_each_metric_has_its_own_value(
    s: PoolSnapshot,
    means: MeanTexts,
    evictions: u64,
    rotations: u64,
)
    ensures
        ({
            let size = "# HELP proxybroker_pool_size Proxies currently available in the pool.\n# TYPE proxybroker_pool_size gauge\n"@
                + ("proxybroker_pool_size{scheme=\"http\"} "@ + text::decimal(s.http as nat)) + (
            "\nproxybroker_pool_size{scheme=\"https\"} "@ + text::decimal(s.https as nat) + "\n"@);
            let error_rate = metric(
                "proxybroker_pool_error_rate_avg"@,
                "Mean proxy error rate over the pool."@,
                "gauge"@,
                means.error_rate@,
            );
            let resp_time = metric(
                "proxybroker_pool_resp_time_avg_seconds"@,
                "Mean proxy response time over the pool."@,
                "gauge"@,
                means.resp_time@,
            );
            let probe = metric(
                "proxybroker_pool_probe_latency_avg_seconds"@,
                "Mean judge-probe latency (check-time) over the pool."@,
                "gauge"@,
                means.probe_latency@,
            );
            let evicted = metric(
                "proxybroker_evictions_total"@,
                "Proxies hard-evicted from the pool."@,
                "counter"@,
                text::decimal(evictions as nat),
            );
            let rotated = metric(
                "proxybroker_rotations_total"@,
                "Mid-request rotations to a different proxy."@,
                "counter"@,
                text::decimal(rotations as nat),
            );
            metrics_text(s, means, evictions, rotations) == size + error_rate + resp_time + probe
                + evicted + rotated
        }),
{
    reveal_strlit("# HELP ");
    reveal_strlit("proxybroker_pool_size");
    reveal_strlit(" ");
    reveal_strlit("Proxies currently available in the pool.");
    reveal_strlit("\n# TYPE ");
    reveal_strlit("gauge");
    reveal_strlit("\n");
    reveal_strlit(
        "# HELP proxybroker_pool_size Proxies currently available in the pool.\n# TYPE proxybroker_pool_size gauge\n",
    );
    assert(heading(
        "proxybroker_pool_size"@,
        "Proxies currently available in the pool."@,
        "gauge"@,
    )
        =~= "# HELP proxybroker_pool_size Proxies currently available in the pool.\n# TYPE proxybroker_pool_size gauge\n"@);
    let head = "# HELP proxybroker_pool_size Proxies currently available in the pool.\n# TYPE proxybroker_pool_size gauge\n"@;
    let (a, b) = ("proxybroker_pool_size{scheme=\"http\"} "@, text::decimal(s.http as nat));
    let (c, d) = (
        "\nproxybroker_pool_size{scheme=\"https\"} "@,
        text::decimal(s.https as nat),
    );
    assert(head + a + b + c + d + "\n"@ =~= head + (a + b) + (c + d + "\n"@));
}

/// The response that carries a page says how many bytes it has.
pub proof fn law_metrics_response_tells_its_length(body: Seq<char>)
    ensures
        metrics_response_text(body)
            == "HTTP/1.1 200 OK\r\nContent-Type: text/plain; version=0.0.4\r\nContent-Length: "@ + (
        text::decimal(encode_utf8(body).len()) + "\r\nConnection: close\r\n\r\n"@) + body,
{
    let n = text::decimal(encode_utf8(body).len());
    let a = "HTTP/1.1 200 OK\r\nContent-Type: text/plain; version=0.0.4\r\nContent-Length: "@;
    let b = "\r\nConnection: close\r\n\r\n"@;
    assert(a + n + b + body =~= a + (n + b) + body);
}

} // verus!

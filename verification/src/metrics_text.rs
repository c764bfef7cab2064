//! The resource gauges appended to the Prometheus text the metrics endpoints
//! serve.

use vstd::prelude::*;
use crate::text::{chars_of, decimal, push_decimal, push_str_chars, string_from_chars};

verus! {

/// One gauge in the Prometheus text format: its help line, its type line
/// and its value.
pub open spec fn gauge_block(name: Seq<char>, help: Seq<char>, value: nat) -> Seq<char> {
    "# HELP "@ + name + " "@ + help + "\n"@ + "# TYPE "@ + name + " gauge\n"@ + name + " "@
        + decimal(value) + "\n"@
}

/// `body` ending with a line break unless it is empty.
pub open spec fn ends_with_newline(body: Seq<char>) -> Seq<char> {
    if body.len() > 0 && body.last() != '\n' {
        body.push('\n')
    } else {
        body
    }
}

/// The server's resource gauges after `body`.
pub open spec fn server_resource_text(
    body: Seq<char>,
    waiting_tasks: u64,
    reverse_streams: u64,
    http_requests: u64,
    udp_tasks: u64,
) -> Seq<char> {
    ends_with_newline(body) + gauge_block(
        "duotunnel_slowpath_waiting_tasks"@,
        "Active tasks waiting in slowpath overload backoff."@,
        waiting_tasks as nat,
    ) + gauge_block(
        "duotunnel_reverse_streams_active"@,
        "Active reverse tunnel streams."@,
        reverse_streams as nat,
    ) + gauge_block("duotunnel_http_requests_active"@, "Active HTTP requests."@, http_requests as nat)
        + gauge_block(
        "duotunnel_udp_tasks_active"@,
        "Active UDP dispatch and reply tasks."@,
        udp_tasks as nat,
    )
}

/// The client's resource gauges after `body`; flags count as 0 or 1.
pub open spec fn client_resource_text(
    body: Seq<char>,
    waiting_tasks: u64,
    active_tunnels: u64,
    desired_tunnels: u64,
    degraded: bool,
    ready: bool,
    pool_actor_alive: bool,
) -> Seq<char> {
    ends_with_newline(body) + gauge_block(
        "duotunnel_slowpath_waiting_tasks"@,
        "Active tasks waiting in slowpath overload backoff."@,
        waiting_tasks as nat,
    ) + gauge_block(
        "duotunnel_client_active_tunnels"@,
        "Active committed QUIC tunnels."@,
        active_tunnels as nat,
    ) + gauge_block(
        "duotunnel_client_desired_tunnels"@,
        "Desired QUIC tunnel count."@,
        desired_tunnels as nat,
    ) + gauge_block(
        "duotunnel_client_tunnel_degraded"@,
        "Whether active tunnels are below desired."@,
        if degraded {
            1
        } else {
            0
        },
    ) + gauge_block(
        "duotunnel_client_ready"@,
        "Whether aggregate client readiness is satisfied."@,
        if ready {
            1
        } else {
            0
        },
    ) + gauge_block(
        "duotunnel_client_pool_actor_alive"@,
        "Whether the connection-pool actor is alive."@,
        if pool_actor_alive {
            1
        } else {
            0
        },
    )
}

fn push_gauge(out: &mut Vec<char>, name: &str, help: &str, value: u64)
    ensures
        final(out)@ == old(out)@ + gauge_block(name@, help@, value as nat),
{
    let ghost start = out@;
    push_str_chars(out, "# HELP ");
    push_str_chars(out, name);
    push_str_chars(out, " ");
    push_str_chars(out, help);
    push_str_chars(out, "\n");
    push_str_chars(out, "# TYPE ");
    push_str_chars(out, name);
    push_str_chars(out, " gauge\n");
    push_str_chars(out, name);
    push_str_chars(out, " ");
    push_decimal(out, value);
    push_str_chars(out, "\n");
    assert(out@ =~= start + gauge_block(name@, help@, value as nat));
}

fn start_block(body: &String) -> (r: Vec<char>)
    ensures
        r@ == ends_with_newline(body@),
{
    let mut out = chars_of(body.as_str());
    if out.len() > 0 && out[out.len() - 1] != '\n' {
        out.push('\n');
    }
    out
}

/// Appends the server's resource gauges to the rendered metrics.
pub fn append_resource_metrics(
    body: &mut String,
    waiting_tasks: u64,
    reverse_streams: u64,
    http_requests: u64,
    udp_tasks: u64,
)
    ensures
        final(body)@ == server_resource_text(
            old(body)@,
            waiting_tasks,
            reverse_streams,
            http_requests,
            udp_tasks,
        ),
{
    let mut out = start_block(body);
    push_gauge(
        &mut out,
        "duotunnel_slowpath_waiting_tasks",
        "Active tasks waiting in slowpath overload backoff.",
        waiting_tasks,
    );
    push_gauge(
        &mut out,
        "duotunnel_reverse_streams_active",
        "Active reverse tunnel streams.",
        reverse_streams,
    );
    push_gauge(&mut out, "duotunnel_http_requests_active", "Active HTTP requests.", http_requests);
    push_gauge(
        &mut out,
        "duotunnel_udp_tasks_active",
        "Active UDP dispatch and reply tasks.",
        udp_tasks,
    );
    assert(out@ =~= server_resource_text(
        old(body)@,
        waiting_tasks,
        reverse_streams,
        http_requests,
        udp_tasks,
    ));
    *body = string_from_chars(out.as_slice());
}

/// Appends the client's resource gauges to the rendered metrics.
pub fn append_client_resource_metrics(
    body: &mut String,
    waiting_tasks: u64,
    active_tunnels: u64,
    desired_tunnels: u64,
    degraded: bool,
    ready: bool,
    pool_actor_alive: bool,
)
    ensures
        final(body)@ == client_resource_text(
            old(body)@,
            waiting_tasks,
            active_tunnels,
            desired_tunnels,
            degraded,
            ready,
            pool_actor_alive,
        ),
{
    let mut out = start_block(body);
    push_gauge(
        &mut out,
        "duotunnel_slowpath_waiting_tasks",
        "Active tasks waiting in slowpath overload backoff.",
        waiting_tasks,
    );
    push_gauge(
        &mut out,
        "duotunnel_client_active_tunnels",
        "Active committed QUIC tunnels.",
        active_tunnels,
    );
    push_gauge(
        &mut out,
        "duotunnel_client_desired_tunnels",
        "Desired QUIC tunnel count.",
        desired_tunnels,
    );
    push_gauge(
        &mut out,
        "duotunnel_client_tunnel_degraded",
        "Whether active tunnels are below desired.",
        if degraded {
            1
        } else {
            0
        },
    );
    push_gauge(
        &mut out,
        "duotunnel_client_ready",
        "Whether aggregate client readiness is satisfied.",
        if ready {
            1
        } else {
            0
        },
    );
    push_gauge(
        &mut out,
        "duotunnel_client_pool_actor_alive",
        "Whether the connection-pool actor is alive.",
        if pool_actor_alive {
            1
        } else {
            0
        },
    );
    assert(out@ =~= client_resource_text(
        old(body)@,
        waiting_tasks,
        active_tunnels,
        desired_tunnels,
        degraded,
        ready,
        pool_actor_alive,
    ));
    *body = string_from_chars(out.as_slice());
}

} // verus!

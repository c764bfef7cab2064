//! The server configuration file: its sections, the checks it must pass,
//! and the routing records its routing sections describe.

use vstd::prelude::*;
use crate::model::{
    seq_view, ClientGroupDef, ClientGroupV, ClientUpstreamDef, ClientUpstreamV, EgressUpstreamDef,
    EgressUpstreamV, EgressVhostRuleDef, EgressVhostRuleV, IngressListenerDef as ListenerRecord,
    IngressListenerV, IngressListenerModeDef, IngressModeV, IngressVhostRuleDef, IngressVhostRuleV,
    UpstreamServerDef, UpstreamServerV,
};
use crate::buffers::{ProxyBufferConfig, config_check};
use crate::overload::{OverloadLimits, pending_limit};
use crate::host::{canonicalize_egress_host, canonical_host};
use crate::text::{chars_of, joined, push_joined, push_str_chars, string_from_chars};

verus! {

/// QUIC transport settings; unset fields take the transport's defaults.
#[derive(Debug, Clone, Default, PartialEq, Eq)]
pub struct QuicConfig {
    pub shards: Option<usize>,
    pub max_concurrent_streams: Option<u32>,
    pub stream_window_mb: Option<u64>,
    pub connection_window_mb: Option<u64>,
    pub send_window_mb: Option<u64>,
    pub keepalive_secs: Option<u64>,
    pub idle_timeout_secs: Option<u64>,
    pub congestion: Option<String>,
    pub udp_recv_buf_mb: Option<u32>,
    pub udp_send_buf_mb: Option<u32>,
}

/// Overload protection settings.
#[derive(Debug, Clone, Copy, PartialEq, Eq, Structural)]
pub struct OverloadConfig {
    pub emfile_backoff_ms: u64,
    pub max_pending_streams: Option<usize>,
}

impl Default for OverloadConfig {
    fn default() -> (r: Self)
        ensures
            r == (OverloadConfig { emfile_backoff_ms: 100, max_pending_streams: None }),
    {
        OverloadConfig { emfile_backoff_ms: 100, max_pending_streams: None }
    }
}

impl OverloadConfig {
    /// The overload limits for a stream capacity.
    pub fn resolve(&self, max_concurrent_streams: u32) -> (r: OverloadLimits)
        ensures
            r.max_pending_streams == pending_limit(max_concurrent_streams, self.max_pending_streams),
    {
        OverloadLimits::resolve(max_concurrent_streams, self.max_pending_streams)
    }
}

/// The `server` section.
#[derive(Debug, Clone, PartialEq, Eq)]
pub struct ServerBasicConfig {
    pub tunnel_port: u16,
    pub log_level: Option<String>,
    pub trace_enabled: bool,
    pub database_url: String,
    pub metrics_port: Option<u16>,
    pub quic: QuicConfig,
    pub proxy_buffers: ProxyBufferConfig,
    pub login_timeout_secs: u64,
    /// Cap on concurrent QUIC connections that have not yet authenticated.
    pub max_unauthenticated_connections: usize,
    /// Maximum number of authenticated client connections in the registry.
    pub connection_registry_capacity: usize,
    pub open_stream_timeout_ms: u64,
    pub h2_single_authority: bool,
    pub accept_workers: Option<usize>,
    pub overload: OverloadConfig,
}

/// One server of an upstream definition.
#[derive(Debug, Clone, PartialEq, Eq)]
pub struct ServerDef {
    pub address: String,
    pub resolve: bool,
}

/// An upstream definition: its servers and balancing policy.
#[derive(Debug, Clone, PartialEq, Eq)]
pub struct UpstreamDef {
    pub servers: Vec<ServerDef>,
    pub lb_policy: String,
}

/// A vhost rule of an egress listener.
#[derive(Debug, Clone, PartialEq, Eq)]
pub struct EgressHttpRule {
    pub match_host: String,
    pub action_upstream: String,
}

/// The egress rules.
#[derive(Debug, Clone, Default, PartialEq, Eq)]
pub struct EgressRules {
    pub vhost: Vec<EgressHttpRule>,
}

/// The `server_egress_upstream` section: named upstreams (each name once)
/// and the rules that pick them.
#[derive(Debug, Clone, Default, PartialEq, Eq)]
pub struct ServerEgressUpstream {
    pub upstreams: Vec<(String, UpstreamDef)>,
    pub rules: EgressRules,
}

/// A vhost rule of an HTTP ingress listener.
#[derive(Debug, Clone, PartialEq, Eq)]
pub struct VhostRuleDef {
    pub match_host: String,
    pub client_group: String,
    pub proxy_name: String,
}

/// An HTTP ingress listener.
#[derive(Debug, Clone, Default, PartialEq, Eq)]
pub struct HttpListenerDef {
    pub vhost: Vec<VhostRuleDef>,
}

/// A TCP ingress listener.
#[derive(Debug, Clone, PartialEq, Eq)]
pub struct TcpListenerDef {
    pub client_group: String,
    pub proxy_name: String,
}

/// How an ingress listener routes.
#[derive(Debug, Clone, PartialEq, Eq)]
pub enum IngressModeDef {
    Http(HttpListenerDef),
    Tcp(TcpListenerDef),
}

/// An ingress listener as configured.
#[derive(Debug, Clone, PartialEq, Eq)]
pub struct IngressListenerDef {
    pub port: u16,
    pub mode: IngressModeDef,
}

/// The ingress listeners.
#[derive(Debug, Clone, Default, PartialEq, Eq)]
pub struct IngressRouting {
    pub listeners: Vec<IngressListenerDef>,
}

/// The configuration of one client group: its version and named upstreams
/// (each name once).
#[derive(Debug, Clone, PartialEq, Eq)]
pub struct GroupConfig {
    pub config_version: String,
    pub upstreams: Vec<(String, UpstreamDef)>,
}

/// The index of the first listener on `port`, if any.
pub open spec fn first_listener_on(listeners: Seq<IngressListenerDef>, port: u16) -> Option<int>
    decreases listeners.len(),
{
    if listeners.len() == 0 {
        None
    } else if listeners[0].port == port {
        Some(0)
    } else {
        match first_listener_on(listeners.drop_first(), port) {
            Some(i) => Some(i + 1),
            None => None,
        }
    }
}

proof fn lemma_first_listener_on(listeners: Seq<IngressListenerDef>, port: u16, i: int)
    requires
        0 <= i <= listeners.len(),
        forall|j: int| 0 <= j < i ==> listeners[j].port != port,
        i < listeners.len() ==> listeners[i].port == port,
    ensures
        first_listener_on(listeners, port) == if i < listeners.len() {
            Some(i)
        } else {
            None::<int>
        },
    decreases i,
{
    if i > 0 {
        lemma_first_listener_on(listeners.drop_first(), port, i - 1);
    }
}

impl IngressRouting {
    /// The group and proxy that TCP connections to `port` go to: those of
    /// the first listener on that port, when it is a TCP listener.
    pub fn tcp_route(&self, port: u16) -> (r: Option<(String, String)>)
        ensures
            match first_listener_on(self.listeners@, port) {
                Some(i) => match self.listeners@[i].mode {
                    IngressModeDef::Tcp(t) => r matches Some((g, p)) && g@ == t.client_group@
                        && p@ == t.proxy_name@,
                    IngressModeDef::Http(_) => r is None,
                },
                None => r is None,
            },
    {
        let mut i: usize = 0;
        while i < self.listeners.len()
            invariant
                i <= self.listeners@.len(),
                forall|j: int| 0 <= j < i ==> self.listeners@[j].port != port,
            decreases self.listeners@.len() - i,
        {
            if self.listeners[i].port == port {
                proof {
                    lemma_first_listener_on(self.listeners@, port, i as int);
                }
                return match &self.listeners[i].mode {
                    IngressModeDef::Tcp(t) => Some((t.client_group.clone(), t.proxy_name.clone())),
                    IngressModeDef::Http(_) => None,
                };
            }
            i = i + 1;
        }
        proof {
            lemma_first_listener_on(self.listeners@, port, i as int);
        }
        None
    }
}

/// The client groups (each id once).
#[derive(Debug, Clone, Default, PartialEq, Eq)]
pub struct ClientConfigs {
    pub groups: Vec<(String, GroupConfig)>,
}

/// The `tunnel_management` section.
#[derive(Debug, Clone, Default, PartialEq, Eq)]
pub struct TunnelManagement {
    pub server_ingress_routing: IngressRouting,
    pub client_configs: ClientConfigs,
}

impl TunnelManagement {
    /// Whether there are neither listeners nor client groups.
    pub fn is_empty(&self) -> (r: bool)
        ensures
            r == (self.server_ingress_routing.listeners@.len() == 0
                && self.client_configs.groups@.len() == 0),
    {
        self.server_ingress_routing.listeners.len() == 0 && self.client_configs.groups.len() == 0
    }
}

/// The whole `server.yaml`.
#[derive(Debug, Clone, PartialEq, Eq)]
pub struct ServerConfigFile {
    pub server: ServerBasicConfig,
    pub server_egress_upstream: ServerEgressUpstream,
    pub tunnel_management: TunnelManagement,
}

/// The routing sections alone.
#[derive(Debug, Clone, Default, PartialEq, Eq)]
pub struct RoutingConfigFile {
    pub server_egress_upstream: ServerEgressUpstream,
    pub tunnel_management: TunnelManagement,
}

/// The problems of the `server` section, in the order they are checked.
pub open spec fn server_config_errors(b: ServerBasicConfig) -> Seq<Seq<char>> {
    let e0 = Seq::<Seq<char>>::empty();
    let e1 = if b.tunnel_port == 0 {
        e0.push("server.tunnel_port must not be 0"@)
    } else {
        e0
    };
    let e2 = if b.login_timeout_secs == 0 {
        e1.push("server.login_timeout_secs must be >= 1"@)
    } else {
        e1
    };
    let e3 = if b.max_unauthenticated_connections == 0 {
        e2.push("server.max_unauthenticated_connections must be >= 1"@)
    } else {
        e2
    };
    let e4 = if b.connection_registry_capacity == 0 {
        e3.push("server.connection_registry_capacity must be >= 1"@)
    } else {
        e3
    };
    let e5 = if b.open_stream_timeout_ms == 0 {
        e4.push("server.open_stream_timeout_ms must be >= 1"@)
    } else {
        e4
    };
    let e6 = match config_check(b.proxy_buffers) {
        Err(m) => e5.push("server.proxy_buffers: "@ + m),
        Ok(_) => e5,
    };
    let e7 = if b.quic.shards == Some(0usize) {
        e6.push("server.quic.shards must be >= 1 when set"@)
    } else {
        e6
    };
    if b.overload.max_pending_streams == Some(0usize) {
        e7.push("server.overload.max_pending_streams must be >= 1 when set"@)
    } else {
        e7
    }
}

/// The outcome `ServerConfigFile::validate` reports: every problem, one per
/// line, or success when there is none.
pub open spec fn server_config_check(b: ServerBasicConfig) -> Result<(), Seq<char>> {
    let errors = server_config_errors(b);
    if errors.len() == 0 {
        Ok(())
    } else {
        Err("Server config validation failed:\n  - "@ + joined(errors, "\n  - "@))
    }
}

fn push_line(errors: &mut Vec<Vec<char>>, line: &str)
    ensures
        final(errors)@.map_values(|p: Vec<char>| p@) == old(errors)@.map_values(|p: Vec<char>| p@).push(
            line@,
        ),
{
    let ghost before = errors@.map_values(|p: Vec<char>| p@);
    errors.push(chars_of(line));
    assert(errors@.map_values(|p: Vec<char>| p@) =~= before.push(line@));
}

impl ServerConfigFile {
    /// Checks the `server` section, reporting every problem found.
    pub fn validate(&self) -> (r: Result<(), String>)
        ensures
            match r {
                Ok(()) => server_config_check(self.server) is Ok,
                Err(m) => server_config_check(self.server) == Err::<(), Seq<char>>(m@),
            },
    {
        let b = &self.server;
        let mut errors: Vec<Vec<char>> = Vec::new();
        assert(errors@.map_values(|p: Vec<char>| p@) =~= Seq::<Seq<char>>::empty());
        if b.tunnel_port == 0 {
            push_line(&mut errors, "server.tunnel_port must not be 0");
        }
        if b.login_timeout_secs == 0 {
            push_line(&mut errors, "server.login_timeout_secs must be >= 1");
        }
        if b.max_unauthenticated_connections == 0 {
            push_line(&mut errors, "server.max_unauthenticated_connections must be >= 1");
        }
        if b.connection_registry_capacity == 0 {
            push_line(&mut errors, "server.connection_registry_capacity must be >= 1");
        }
        if b.open_stream_timeout_ms == 0 {
            push_line(&mut errors, "server.open_stream_timeout_ms must be >= 1");
        }
        match b.proxy_buffers.validate() {
            Err(m) => {
                let ghost before = errors@.map_values(|p: Vec<char>| p@);
                let mut line: Vec<char> = Vec::new();
                push_str_chars(&mut line, "server.proxy_buffers: ");
                push_str_chars(&mut line, m.as_str());
                errors.push(line);
                assert(errors@.map_values(|p: Vec<char>| p@) =~= before.push(
                    "server.proxy_buffers: "@ + m@,
                ));
            },
            Ok(()) => {},
        }
        if b.quic.shards == Some(0usize) {
            push_line(&mut errors, "server.quic.shards must be >= 1 when set");
        }
        if b.overload.max_pending_streams == Some(0usize) {
            push_line(&mut errors, "server.overload.max_pending_streams must be >= 1 when set");
        }
        assert(errors@.map_values(|p: Vec<char>| p@) =~= server_config_errors(*b));
        if errors.len() == 0 {
            return Ok(());
        }
        let mut out: Vec<char> = Vec::new();
        push_str_chars(&mut out, "Server config validation failed:\n  - ");
        push_joined(&mut out, &errors, "\n  - ");
        Err(string_from_chars(out.as_slice()))
    }
}

/// Routing records, as a rule store keeps them.
#[derive(Debug, Clone, Default, PartialEq, Eq)]
pub struct RoutingData {
    pub ingress_listeners: Vec<ListenerRecord>,
    pub client_groups: Vec<ClientGroupDef>,
    pub egress_upstreams: Vec<EgressUpstreamDef>,
    pub egress_vhost_rules: Vec<EgressVhostRuleDef>,
}

pub struct RoutingDataV {
    pub ingress_listeners: Seq<IngressListenerV>,
    pub client_groups: Seq<ClientGroupV>,
    pub egress_upstreams: Seq<EgressUpstreamV>,
    pub egress_vhost_rules: Seq<EgressVhostRuleV>,
}

impl View for RoutingData {
    type V = RoutingDataV;

    open spec fn view(&self) -> RoutingDataV {
        RoutingDataV {
            ingress_listeners: seq_view(self.ingress_listeners@),
            client_groups: seq_view(self.client_groups@),
            egress_upstreams: seq_view(self.egress_upstreams@),
            egress_vhost_rules: seq_view(self.egress_vhost_rules@),
        }
    }
}

pub open spec fn server_record(s: ServerDef) -> UpstreamServerV {
    UpstreamServerV { address: s.address@, resolve: s.resolve }
}

pub open spec fn servers_record(ss: Seq<ServerDef>) -> Seq<UpstreamServerV> {
    ss.map_values(|s: ServerDef| server_record(s))
}

pub open spec fn vhost_record(r: VhostRuleDef) -> IngressVhostRuleV {
    IngressVhostRuleV { match_host: r.match_host@, group_id: r.client_group@, proxy_name: r.proxy_name@ }
}

/// The record of a configured listener; the store assigns its id, so it
/// starts at zero.
pub open spec fn listener_record(l: IngressListenerDef) -> IngressListenerV {
    IngressListenerV {
        id: 0,
        port: l.port,
        mode: match l.mode {
            IngressModeDef::Http(h) => IngressModeV::Http {
                vhost: h.vhost@.map_values(|r: VhostRuleDef| vhost_record(r)),
            },
            IngressModeDef::Tcp(t) => IngressModeV::Tcp {
                group_id: t.client_group@,
                proxy_name: t.proxy_name@,
            },
        },
    }
}

pub open spec fn client_upstream_record(e: (String, UpstreamDef)) -> ClientUpstreamV {
    ClientUpstreamV { name: e.0@, lb_policy: e.1.lb_policy@, servers: servers_record(e.1.servers@) }
}

pub open spec fn group_record(e: (String, GroupConfig)) -> ClientGroupV {
    ClientGroupV {
        group_id: e.0@,
        config_version: e.1.config_version@,
        upstreams: e.1.upstreams@.map_values(|u: (String, UpstreamDef)| client_upstream_record(u)),
    }
}

pub open spec fn egress_upstream_record(e: (String, UpstreamDef)) -> EgressUpstreamV {
    EgressUpstreamV { name: e.0@, lb_policy: e.1.lb_policy@, servers: servers_record(e.1.servers@) }
}

/// The record of an egress rule: its host canonicalized, or as written when
/// it cannot be.
pub open spec fn egress_rule_record(r: EgressHttpRule) -> EgressVhostRuleV {
    EgressVhostRuleV {
        match_host: match canonical_host(r.match_host@) {
            Ok(h) => h,
            Err(_) => r.match_host@,
        },
        action_upstream: r.action_upstream@,
    }
}

/// The records the routing sections describe, each in the order of its
/// section.
pub open spec fn routing_records(tm: TunnelManagement, eg: ServerEgressUpstream) -> RoutingDataV {
    RoutingDataV {
        ingress_listeners: tm.server_ingress_routing.listeners@.map_values(
            |l: IngressListenerDef| listener_record(l),
        ),
        client_groups: tm.client_configs.groups@.map_values(
            |g: (String, GroupConfig)| group_record(g),
        ),
        egress_upstreams: eg.upstreams@.map_values(|u: (String, UpstreamDef)| egress_upstream_record(u)),
        egress_vhost_rules: eg.rules.vhost@.map_values(|r: EgressHttpRule| egress_rule_record(r)),
    }
}

fn convert_servers(ss: &Vec<ServerDef>) -> (r: Vec<UpstreamServerDef>)
    ensures
        seq_view(r@) == servers_record(ss@),
{
    let mut out: Vec<UpstreamServerDef> = Vec::new();
    let mut i: usize = 0;
    while i < ss.len()
        invariant
            i <= ss@.len(),
            seq_view(out@) == servers_record(ss@.take(i as int)),
        decreases ss@.len() - i,
    {
        let ghost before = seq_view(out@);
        let item = UpstreamServerDef { address: ss[i].address.clone(), resolve: ss[i].resolve };
        assert(item@ == server_record(ss@[i as int]));
        out.push(item);
        assert(seq_view(out@) =~= before.push(item@));
        assert(ss@.take(i + 1) =~= ss@.take(i as int).push(ss@[i as int]));
        assert(servers_record(ss@.take(i + 1)) =~= servers_record(ss@.take(i as int)).push(
            server_record(ss@[i as int]),
        ));
        i = i + 1;
    }
    assert(ss@.take(i as int) =~= ss@);
    out
}

fn convert_listener(l: &IngressListenerDef) -> (r: ListenerRecord)
    ensures
        r@ == listener_record(*l),
{
    let mode = match &l.mode {
        IngressModeDef::Http(h) => {
            let mut vhost: Vec<IngressVhostRuleDef> = Vec::new();
            let mut i: usize = 0;
            while i < h.vhost.len()
                invariant
                    i <= h.vhost@.len(),
                    seq_view(vhost@) == h.vhost@.take(i as int).map_values(
                        |r: VhostRuleDef| vhost_record(r),
                    ),
                decreases h.vhost@.len() - i,
            {
                let r = &h.vhost[i];
                let ghost before = seq_view(vhost@);
                let item = IngressVhostRuleDef {
                    match_host: r.match_host.clone(),
                    group_id: r.client_group.clone(),
                    proxy_name: r.proxy_name.clone(),
                };
                assert(item@ == vhost_record(h.vhost@[i as int]));
                vhost.push(item);
                assert(seq_view(vhost@) =~= before.push(item@));
                assert(h.vhost@.take(i + 1) =~= h.vhost@.take(i as int).push(h.vhost@[i as int]));
                assert(h.vhost@.take(i + 1).map_values(|r: VhostRuleDef| vhost_record(r))
                    =~= h.vhost@.take(i as int).map_values(|r: VhostRuleDef| vhost_record(r)).push(
                    vhost_record(h.vhost@[i as int]),
                ));
                assert(seq_view(vhost@) =~= h.vhost@.take(i + 1).map_values(
                    |r: VhostRuleDef| vhost_record(r),
                ));
                i = i + 1;
            }
            assert(h.vhost@.take(i as int) =~= h.vhost@);
            IngressListenerModeDef::Http { vhost }
        },
        IngressModeDef::Tcp(t) => IngressListenerModeDef::Tcp {
            group_id: t.client_group.clone(),
            proxy_name: t.proxy_name.clone(),
        },
    };
    ListenerRecord { id: 0, port: l.port, mode }
}

fn convert_client_upstreams(us: &Vec<(String, UpstreamDef)>) -> (r: Vec<ClientUpstreamDef>)
    ensures
        seq_view(r@) == us@.map_values(|u: (String, UpstreamDef)| client_upstream_record(u)),
{
    let mut out: Vec<ClientUpstreamDef> = Vec::new();
    let mut i: usize = 0;
    while i < us.len()
        invariant
            i <= us@.len(),
            seq_view(out@) == us@.take(i as int).map_values(
                |u: (String, UpstreamDef)| client_upstream_record(u),
            ),
        decreases us@.len() - i,
    {
        let e = &us[i];
        let ghost before = seq_view(out@);
        let item = ClientUpstreamDef {
            name: e.0.clone(),
            lb_policy: e.1.lb_policy.clone(),
            servers: convert_servers(&e.1.servers),
        };
        assert(item@ == client_upstream_record(us@[i as int]));
        out.push(item);
        assert(seq_view(out@) =~= before.push(item@));
        assert(us@.take(i + 1) =~= us@.take(i as int).push(us@[i as int]));
        assert(us@.take(i + 1).map_values(|u: (String, UpstreamDef)| client_upstream_record(u))
            =~= us@.take(i as int).map_values(
            |u: (String, UpstreamDef)| client_upstream_record(u),
        ).push(client_upstream_record(us@[i as int])));
        assert(seq_view(out@) =~= us@.take(i + 1).map_values(
            |u: (String, UpstreamDef)| client_upstream_record(u),
        ));
        i = i + 1;
    }
    assert(us@.take(i as int) =~= us@);
    out
}

/// The routing records of the routing sections.
fn routing_data_from_parts(tm: &TunnelManagement, eg: &ServerEgressUpstream) -> (r: RoutingData)
    ensures
        r@ == routing_records(*tm, *eg),
{
    let ls = &tm.server_ingress_routing.listeners;
    let mut ingress_listeners: Vec<ListenerRecord> = Vec::new();
    let mut i: usize = 0;
    while i < ls.len()
        invariant
            i <= ls@.len(),
            seq_view(ingress_listeners@) == ls@.take(i as int).map_values(
                |l: IngressListenerDef| listener_record(l),
            ),
        decreases ls@.len() - i,
    {
        let ghost before = seq_view(ingress_listeners@);
        let item = convert_listener(&ls[i]);
        ingress_listeners.push(item);
        assert(seq_view(ingress_listeners@) =~= before.push(item@));
        assert(ls@.take(i + 1) =~= ls@.take(i as int).push(ls@[i as int]));
        assert(ls@.take(i + 1).map_values(|l: IngressListenerDef| listener_record(l))
            =~= ls@.take(i as int).map_values(|l: IngressListenerDef| listener_record(l)).push(
            listener_record(ls@[i as int]),
        ));
        assert(seq_view(ingress_listeners@) =~= ls@.take(i + 1).map_values(
            |l: IngressListenerDef| listener_record(l),
        ));
        i = i + 1;
    }
    assert(ls@.take(i as int) =~= ls@);
    let gs = &tm.client_configs.groups;
    let mut client_groups: Vec<ClientGroupDef> = Vec::new();
    let mut i: usize = 0;
    while i < gs.len()
        invariant
            i <= gs@.len(),
            seq_view(client_groups@) == gs@.take(i as int).map_values(
                |g: (String, GroupConfig)| group_record(g),
            ),
        decreases gs@.len() - i,
    {
        let g = &gs[i];
        let ghost before = seq_view(client_groups@);
        let item = ClientGroupDef {
            group_id: g.0.clone(),
            config_version: g.1.config_version.clone(),
            upstreams: convert_client_upstreams(&g.1.upstreams),
        };
        assert(item@ == group_record(gs@[i as int]));
        client_groups.push(item);
        assert(seq_view(client_groups@) =~= before.push(item@));
        assert(gs@.take(i + 1) =~= gs@.take(i as int).push(gs@[i as int]));
        assert(gs@.take(i + 1).map_values(|g: (String, GroupConfig)| group_record(g))
            =~= gs@.take(i as int).map_values(|g: (String, GroupConfig)| group_record(g)).push(
            group_record(gs@[i as int]),
        ));
        assert(seq_view(client_groups@) =~= gs@.take(i + 1).map_values(
            |g: (String, GroupConfig)| group_record(g),
        ));
        i = i + 1;
    }
    assert(gs@.take(i as int) =~= gs@);
    let us = &eg.upstreams;
    let mut egress_upstreams: Vec<EgressUpstreamDef> = Vec::new();
    let mut i: usize = 0;
    while i < us.len()
        invariant
            i <= us@.len(),
            seq_view(egress_upstreams@) == us@.take(i as int).map_values(
                |u: (String, UpstreamDef)| egress_upstream_record(u),
            ),
        decreases us@.len() - i,
    {
        let e = &us[i];
        let ghost before = seq_view(egress_upstreams@);
        let item = EgressUpstreamDef {
            name: e.0.clone(),
            lb_policy: e.1.lb_policy.clone(),
            servers: convert_servers(&e.1.servers),
        };
        assert(item@ == egress_upstream_record(us@[i as int]));
        egress_upstreams.push(item);
        assert(seq_view(egress_upstreams@) =~= before.push(item@));
        assert(us@.take(i + 1) =~= us@.take(i as int).push(us@[i as int]));
        assert(us@.take(i + 1).map_values(|u: (String, UpstreamDef)| egress_upstream_record(u))
            =~= us@.take(i as int).map_values(
            |u: (String, UpstreamDef)| egress_upstream_record(u),
        ).push(egress_upstream_record(us@[i as int])));
        assert(seq_view(egress_upstreams@) =~= us@.take(i + 1).map_values(
            |u: (String, UpstreamDef)| egress_upstream_record(u),
        ));
        i = i + 1;
    }
    assert(us@.take(i as int) =~= us@);
    let rs = &eg.rules.vhost;
    let mut egress_vhost_rules: Vec<EgressVhostRuleDef> = Vec::new();
    let mut i: usize = 0;
    while i < rs.len()
        invariant
            i <= rs@.len(),
            seq_view(egress_vhost_rules@) == rs@.take(i as int).map_values(
                |r: EgressHttpRule| egress_rule_record(r),
            ),
        decreases rs@.len() - i,
    {
        let r = &rs[i];
        let match_host = match canonicalize_egress_host(r.match_host.as_str()) {
            Ok(h) => h,
            Err(_) => r.match_host.clone(),
        };
        let ghost before = seq_view(egress_vhost_rules@);
        let item = EgressVhostRuleDef { match_host, action_upstream: r.action_upstream.clone() };
        assert(item@ == egress_rule_record(rs@[i as int]));
        egress_vhost_rules.push(item);
        assert(seq_view(egress_vhost_rules@) =~= before.push(item@));
        assert(rs@.take(i + 1) =~= rs@.take(i as int).push(rs@[i as int]));
        assert(rs@.take(i + 1).map_values(|r: EgressHttpRule| egress_rule_record(r))
            =~= rs@.take(i as int).map_values(|r: EgressHttpRule| egress_rule_record(r)).push(
            egress_rule_record(rs@[i as int]),
        ));
        assert(seq_view(egress_vhost_rules@) =~= rs@.take(i + 1).map_values(
            |r: EgressHttpRule| egress_rule_record(r),
        ));
        i = i + 1;
    }
    assert(rs@.take(i as int) =~= rs@);
    RoutingData { ingress_listeners, client_groups, egress_upstreams, egress_vhost_rules }
}

/// The routing records of a server configuration file.
pub fn routing_data_from_server_config(cfg: &ServerConfigFile) -> (r: RoutingData)
    ensures
        r@ == routing_records(cfg.tunnel_management, cfg.server_egress_upstream),
{
    routing_data_from_parts(&cfg.tunnel_management, &cfg.server_egress_upstream)
}

/// The routing records of a routing configuration file.
pub fn routing_data_from_routing_config(cfg: &RoutingConfigFile) -> (r: RoutingData)
    ensures
        r@ == routing_records(cfg.tunnel_management, cfg.server_egress_upstream),
{
    routing_data_from_parts(&cfg.tunnel_management, &cfg.server_egress_upstream)
}

} // verus!

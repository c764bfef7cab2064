//! Configuration layers: the routing a YAML file gives, the overrides and
//! tombstones kept in SQLite on top of it, how both are normalized and
//! checked, and how they merge into the effective routing.

use vstd::prelude::*;
use crate::model::{
    seq_view, string_eq, ClientGroupDef, ClientGroupV, ClientUpstreamDef, ClientUpstreamV,
    EgressUpstreamDef, EgressUpstreamV, EgressVhostRuleDef, EgressVhostRuleV,
    IngressListenerDef, IngressListenerV, IngressListenerModeDef, IngressModeV,
    IngressVhostRuleDef, IngressVhostRuleV, vec_duplicate, SameView,
};
use crate::collection::{
    keys_unique, keys_are_unique, upsert_spec, upsert_by_key, delete_spec, delete_by_key, has_key,
    key_index, lemma_key_index_props,
};
use crate::ctld::{ConfigOperation, OperationV};
use crate::host::{parse_port, port_ok, port_digits, char_digits_value};
use crate::model::Keyed;
use crate::config::{RoutingData, RoutingDataV};
use crate::host::{canonicalize_egress_host, canonical_host, HostError, host_error_text};
use crate::text::{trim_uws, trim_string, push_str_chars, string_from_chars, lemma_trim_idempotent};

verus! {

/// Identifiers that must not be blank.
#[derive(Debug, Clone, Copy, PartialEq, Eq, Structural)]
pub enum IdField {
    ClientGroupId,
    ClientUpstreamName,
    IngressVhostGroupId,
    TcpListenerGroupId,
    EgressUpstreamName,
    EgressVhostUpstream,
    ClientGroupTombstone,
    EgressUpstreamTombstone,
}

/// Keys that must not repeat.
#[derive(Debug, Clone, Copy, PartialEq, Eq, Structural)]
pub enum KeyKind {
    IngressListener,
    ClientUpstream,
    ClientGroup,
    IngressVhost,
    EgressUpstream,
    EgressVhostRule,
    IngressListenerTombstone,
    ClientGroupTombstone,
    EgressUpstreamTombstone,
    EgressVhostRuleTombstone,
}

/// Collections whose overrides and tombstones must not share a key.
#[derive(Debug, Clone, Copy, PartialEq, Eq, Structural)]
pub enum ConflictKind {
    IngressListener,
    ClientGroup,
    EgressUpstream,
    EgressVhost,
}

/// Why a layer, an override or a merge is refused.
#[derive(Debug, Clone, PartialEq, Eq)]
pub enum LayerError {
    EmptyIdentifier(IdField),
    DuplicateKey(KeyKind),
    InvalidHost(HostError),
    OverrideTombstoneConflict(ConflictKind),
    UnknownVhostGroup(String),
    UnknownTcpGroup(String),
    UnknownUpstream(String),
    TokenOperation,
    InvalidIngressPort,
    UnknownResource(String),
}

pub enum LayerErrorV {
    EmptyIdentifier(IdField),
    DuplicateKey(KeyKind),
    InvalidHost(HostError),
    OverrideTombstoneConflict(ConflictKind),
    UnknownVhostGroup(Seq<char>),
    UnknownTcpGroup(Seq<char>),
    UnknownUpstream(Seq<char>),
    TokenOperation,
    InvalidIngressPort,
    UnknownResource(Seq<char>),
}

impl View for LayerError {
    type V = LayerErrorV;

    open spec fn view(&self) -> LayerErrorV {
        match self {
            LayerError::EmptyIdentifier(f) => LayerErrorV::EmptyIdentifier(*f),
            LayerError::DuplicateKey(k) => LayerErrorV::DuplicateKey(*k),
            LayerError::InvalidHost(e) => LayerErrorV::InvalidHost(*e),
            LayerError::OverrideTombstoneConflict(c) => LayerErrorV::OverrideTombstoneConflict(*c),
            LayerError::UnknownVhostGroup(s) => LayerErrorV::UnknownVhostGroup(s@),
            LayerError::UnknownTcpGroup(s) => LayerErrorV::UnknownTcpGroup(s@),
            LayerError::UnknownUpstream(s) => LayerErrorV::UnknownUpstream(s@),
            LayerError::TokenOperation => LayerErrorV::TokenOperation,
            LayerError::InvalidIngressPort => LayerErrorV::InvalidIngressPort,
            LayerError::UnknownResource(s) => LayerErrorV::UnknownResource(s@),
        }
    }
}

pub open spec fn id_field_text(f: IdField) -> Seq<char> {
    match f {
        IdField::ClientGroupId => "client group id"@,
        IdField::ClientUpstreamName => "client upstream name"@,
        IdField::IngressVhostGroupId => "ingress vhost group id"@,
        IdField::TcpListenerGroupId => "TCP listener group id"@,
        IdField::EgressUpstreamName => "egress upstream name"@,
        IdField::EgressVhostUpstream => "egress vhost upstream"@,
        IdField::ClientGroupTombstone => "client group tombstone"@,
        IdField::EgressUpstreamTombstone => "egress upstream tombstone"@,
    }
}

pub open spec fn key_kind_text(k: KeyKind) -> Seq<char> {
    match k {
        KeyKind::IngressListener => "ingress listener"@,
        KeyKind::ClientUpstream => "client upstream"@,
        KeyKind::ClientGroup => "client group"@,
        KeyKind::IngressVhost => "ingress vhost"@,
        KeyKind::EgressUpstream => "egress upstream"@,
        KeyKind::EgressVhostRule => "egress vhost rule"@,
        KeyKind::IngressListenerTombstone => "ingress listener tombstone"@,
        KeyKind::ClientGroupTombstone => "client group tombstone"@,
        KeyKind::EgressUpstreamTombstone => "egress upstream tombstone"@,
        KeyKind::EgressVhostRuleTombstone => "egress vhost rule tombstone"@,
    }
}

pub open spec fn conflict_text(c: ConflictKind) -> Seq<char> {
    match c {
        ConflictKind::IngressListener => "ingress listener"@,
        ConflictKind::ClientGroup => "client group"@,
        ConflictKind::EgressUpstream => "egress upstream"@,
        ConflictKind::EgressVhost => "egress vhost"@,
    }
}

/// The message each error carries.
pub open spec fn layer_error_text(e: LayerErrorV) -> Seq<char> {
    match e {
        LayerErrorV::EmptyIdentifier(f) => id_field_text(f) + " must not be empty"@,
        LayerErrorV::DuplicateKey(k) => "duplicate "@ + key_kind_text(k) + " key"@,
        LayerErrorV::InvalidHost(h) => host_error_text(h),
        LayerErrorV::OverrideTombstoneConflict(c) => conflict_text(c)
            + " override and tombstone share a key"@,
        LayerErrorV::UnknownVhostGroup(g) => "ingress vhost references unknown client group: "@ + g,
        LayerErrorV::UnknownTcpGroup(g) => "TCP listener references unknown client group: "@ + g,
        LayerErrorV::UnknownUpstream(u) => "egress vhost references unknown upstream: "@ + u,
        LayerErrorV::TokenOperation => "token operations must use the token admin API"@,
        LayerErrorV::InvalidIngressPort => "invalid ingress port"@,
        LayerErrorV::UnknownResource(r) => "unknown override resource: "@ + r,
    }
}

fn id_field_str(f: IdField) -> (r: &'static str)
    ensures
        r@ == id_field_text(f),
{
    match f {
        IdField::ClientGroupId => "client group id",
        IdField::ClientUpstreamName => "client upstream name",
        IdField::IngressVhostGroupId => "ingress vhost group id",
        IdField::TcpListenerGroupId => "TCP listener group id",
        IdField::EgressUpstreamName => "egress upstream name",
        IdField::EgressVhostUpstream => "egress vhost upstream",
        IdField::ClientGroupTombstone => "client group tombstone",
        IdField::EgressUpstreamTombstone => "egress upstream tombstone",
    }
}

fn key_kind_str(k: KeyKind) -> (r: &'static str)
    ensures
        r@ == key_kind_text(k),
{
    match k {
        KeyKind::IngressListener => "ingress listener",
        KeyKind::ClientUpstream => "client upstream",
        KeyKind::ClientGroup => "client group",
        KeyKind::IngressVhost => "ingress vhost",
        KeyKind::EgressUpstream => "egress upstream",
        KeyKind::EgressVhostRule => "egress vhost rule",
        KeyKind::IngressListenerTombstone => "ingress listener tombstone",
        KeyKind::ClientGroupTombstone => "client group tombstone",
        KeyKind::EgressUpstreamTombstone => "egress upstream tombstone",
        KeyKind::EgressVhostRuleTombstone => "egress vhost rule tombstone",
    }
}

fn conflict_str(c: ConflictKind) -> (r: &'static str)
    ensures
        r@ == conflict_text(c),
{
    match c {
        ConflictKind::IngressListener => "ingress listener",
        ConflictKind::ClientGroup => "client group",
        ConflictKind::EgressUpstream => "egress upstream",
        ConflictKind::EgressVhost => "egress vhost",
    }
}

impl LayerError {
    /// The message the error carries.
    pub fn message(&self) -> (r: String)
        ensures
            r@ == layer_error_text(self@),
    {
        let mut out: Vec<char> = Vec::new();
        match self {
            LayerError::EmptyIdentifier(f) => {
                push_str_chars(&mut out, id_field_str(*f));
                push_str_chars(&mut out, " must not be empty");
            },
            LayerError::DuplicateKey(k) => {
                push_str_chars(&mut out, "duplicate ");
                push_str_chars(&mut out, key_kind_str(*k));
                push_str_chars(&mut out, " key");
            },
            LayerError::InvalidHost(h) => {
                push_str_chars(&mut out, h.message());
            },
            LayerError::OverrideTombstoneConflict(c) => {
                push_str_chars(&mut out, conflict_str(*c));
                push_str_chars(&mut out, " override and tombstone share a key");
            },
            LayerError::UnknownVhostGroup(g) => {
                push_str_chars(&mut out, "ingress vhost references unknown client group: ");
                push_str_chars(&mut out, g.as_str());
            },
            LayerError::UnknownTcpGroup(g) => {
                push_str_chars(&mut out, "TCP listener references unknown client group: ");
                push_str_chars(&mut out, g.as_str());
            },
            LayerError::UnknownUpstream(u) => {
                push_str_chars(&mut out, "egress vhost references unknown upstream: ");
                push_str_chars(&mut out, u.as_str());
            },
            LayerError::TokenOperation => {
                push_str_chars(&mut out, "token operations must use the token admin API");
            },
            LayerError::InvalidIngressPort => {
                push_str_chars(&mut out, "invalid ingress port");
            },
            LayerError::UnknownResource(r) => {
                push_str_chars(&mut out, "unknown override resource: ");
                push_str_chars(&mut out, r.as_str());
            },
        }
        assert(out@ =~= layer_error_text(self@));
        string_from_chars(out.as_slice())
    }
}

/// A result with a layer error, by views.
pub open spec fn err_view<T>(r: Result<T, LayerError>) -> Option<LayerErrorV> {
    match r {
        Ok(_) => None,
        Err(e) => Some(e@),
    }
}

/// No two keys of `ks` are equal.
pub open spec fn distinct(ks: Seq<Seq<char>>) -> bool {
    forall|i: int, j: int| 0 <= i < j < ks.len() ==> (#[trigger] ks[i]) != (#[trigger] ks[j])
}

/// An identifier that `str::trim` leaves something of.
pub open spec fn id_ok(s: Seq<char>) -> bool {
    trim_uws(s).len() > 0
}

/// The canonical form of a host known to have one.
pub open spec fn host_key(s: Seq<char>) -> Seq<char> {
    match canonical_host(s) {
        Ok(h) => h,
        Err(_) => s,
    }
}

pub open spec fn norm_vhost_rule(r: IngressVhostRuleV) -> IngressVhostRuleV {
    IngressVhostRuleV { match_host: host_key(r.match_host), group_id: trim_uws(r.group_id), ..r }
}

pub open spec fn norm_listener(l: IngressListenerV) -> IngressListenerV {
    IngressListenerV {
        mode: match l.mode {
            IngressModeV::Http { vhost } => IngressModeV::Http {
                vhost: vhost.map_values(|r: IngressVhostRuleV| norm_vhost_rule(r)),
            },
            IngressModeV::Tcp { group_id, proxy_name } => IngressModeV::Tcp {
                group_id: trim_uws(group_id),
                proxy_name,
            },
        },
        ..l
    }
}

pub open spec fn norm_client_upstream(u: ClientUpstreamV) -> ClientUpstreamV {
    ClientUpstreamV { name: trim_uws(u.name), ..u }
}

pub open spec fn norm_group(g: ClientGroupV) -> ClientGroupV {
    ClientGroupV {
        group_id: trim_uws(g.group_id),
        upstreams: g.upstreams.map_values(|u: ClientUpstreamV| norm_client_upstream(u)),
        ..g
    }
}

pub open spec fn norm_egress_upstream(u: EgressUpstreamV) -> EgressUpstreamV {
    EgressUpstreamV { name: trim_uws(u.name), ..u }
}

pub open spec fn norm_egress_rule(r: EgressVhostRuleV) -> EgressVhostRuleV {
    EgressVhostRuleV { match_host: host_key(r.match_host), action_upstream: trim_uws(r.action_upstream) }
}

/// Routing with identifiers trimmed and hosts in canonical form.
pub open spec fn norm_routing(r: RoutingDataV) -> RoutingDataV {
    RoutingDataV {
        ingress_listeners: r.ingress_listeners.map_values(|l: IngressListenerV| norm_listener(l)),
        client_groups: r.client_groups.map_values(|g: ClientGroupV| norm_group(g)),
        egress_upstreams: r.egress_upstreams.map_values(|u: EgressUpstreamV| norm_egress_upstream(u)),
        egress_vhost_rules: r.egress_vhost_rules.map_values(|x: EgressVhostRuleV| norm_egress_rule(x)),
    }
}

/// The error a client group raises: a blank id, a blank upstream name, or
/// upstream names that repeat once trimmed.
pub open spec fn group_error(g: ClientGroupV) -> Option<LayerErrorV> {
    if !id_ok(g.group_id) {
        Some(LayerErrorV::EmptyIdentifier(IdField::ClientGroupId))
    } else if exists|k: int| 0 <= k < g.upstreams.len() && !id_ok((#[trigger] g.upstreams[k]).name) {
        Some(LayerErrorV::EmptyIdentifier(IdField::ClientUpstreamName))
    } else if !distinct(g.upstreams.map_values(|u: ClientUpstreamV| trim_uws(u.name))) {
        Some(LayerErrorV::DuplicateKey(KeyKind::ClientUpstream))
    } else {
        None
    }
}

/// The first error among the first `n` client groups.
pub open spec fn groups_error(gs: Seq<ClientGroupV>, n: int) -> Option<LayerErrorV>
    decreases n,
{
    if n <= 0 {
        None
    } else {
        match groups_error(gs, n - 1) {
            Some(e) => Some(e),
            None => group_error(gs[n - 1]),
        }
    }
}

/// The error an ingress vhost rule raises: a host without a canonical form,
/// then a blank group id.
pub open spec fn vhost_rule_error(r: IngressVhostRuleV) -> Option<LayerErrorV> {
    match canonical_host(r.match_host) {
        Err(e) => Some(LayerErrorV::InvalidHost(e)),
        Ok(_) => if !id_ok(r.group_id) {
            Some(LayerErrorV::EmptyIdentifier(IdField::IngressVhostGroupId))
        } else {
            None
        },
    }
}

/// The first error among the first `n` vhost rules of a listener.
pub open spec fn vhost_rules_error(rs: Seq<IngressVhostRuleV>, n: int) -> Option<LayerErrorV>
    decreases n,
{
    if n <= 0 {
        None
    } else {
        match vhost_rules_error(rs, n - 1) {
            Some(e) => Some(e),
            None => vhost_rule_error(rs[n - 1]),
        }
    }
}

/// The error a listener raises: one of its rules, or canonical hosts that
/// repeat; the group id of a TCP listener being blank.
pub open spec fn listener_error(l: IngressListenerV) -> Option<LayerErrorV> {
    match l.mode {
        IngressModeV::Http { vhost } => match vhost_rules_error(vhost, vhost.len() as int) {
            Some(e) => Some(e),
            None => if !distinct(vhost.map_values(|r: IngressVhostRuleV| host_key(r.match_host))) {
                Some(LayerErrorV::DuplicateKey(KeyKind::IngressVhost))
            } else {
                None
            },
        },
        IngressModeV::Tcp { group_id, proxy_name } => if !id_ok(group_id) {
            Some(LayerErrorV::EmptyIdentifier(IdField::TcpListenerGroupId))
        } else {
            None
        },
    }
}

/// The first error among the first `n` listeners.
pub open spec fn listeners_error(ls: Seq<IngressListenerV>, n: int) -> Option<LayerErrorV>
    decreases n,
{
    if n <= 0 {
        None
    } else {
        match listeners_error(ls, n - 1) {
            Some(e) => Some(e),
            None => listener_error(ls[n - 1]),
        }
    }
}

/// The error an egress vhost rule raises: a host without a canonical form,
/// then a blank upstream.
pub open spec fn egress_rule_error(r: EgressVhostRuleV) -> Option<LayerErrorV> {
    match canonical_host(r.match_host) {
        Err(e) => Some(LayerErrorV::InvalidHost(e)),
        Ok(_) => if !id_ok(r.action_upstream) {
            Some(LayerErrorV::EmptyIdentifier(IdField::EgressVhostUpstream))
        } else {
            None
        },
    }
}

/// The first error among the first `n` egress vhost rules.
pub open spec fn egress_rules_error(rs: Seq<EgressVhostRuleV>, n: int) -> Option<LayerErrorV>
    decreases n,
{
    if n <= 0 {
        None
    } else {
        match egress_rules_error(rs, n - 1) {
            Some(e) => Some(e),
            None => egress_rule_error(rs[n - 1]),
        }
    }
}

/// The first problem of a routing, checked in the order: listener ports,
/// client groups and their upstreams, group ids, listeners and their rules,
/// egress upstream names, egress vhost rules.
pub open spec fn routing_error(r: RoutingDataV) -> Option<LayerErrorV> {
    let gs = r.client_groups;
    let ls = r.ingress_listeners;
    let us = r.egress_upstreams;
    let rs = r.egress_vhost_rules;
    if !keys_unique::<IngressListenerDef>(ls) {
        Some(LayerErrorV::DuplicateKey(KeyKind::IngressListener))
    } else if groups_error(gs, gs.len() as int) is Some {
        groups_error(gs, gs.len() as int)
    } else if !distinct(gs.map_values(|g: ClientGroupV| trim_uws(g.group_id))) {
        Some(LayerErrorV::DuplicateKey(KeyKind::ClientGroup))
    } else if listeners_error(ls, ls.len() as int) is Some {
        listeners_error(ls, ls.len() as int)
    } else if exists|i: int| 0 <= i < us.len() && !id_ok((#[trigger] us[i]).name) {
        Some(LayerErrorV::EmptyIdentifier(IdField::EgressUpstreamName))
    } else if !distinct(us.map_values(|u: EgressUpstreamV| trim_uws(u.name))) {
        Some(LayerErrorV::DuplicateKey(KeyKind::EgressUpstream))
    } else if egress_rules_error(rs, rs.len() as int) is Some {
        egress_rules_error(rs, rs.len() as int)
    } else if !distinct(rs.map_values(|x: EgressVhostRuleV| host_key(x.match_host))) {
        Some(LayerErrorV::DuplicateKey(KeyKind::EgressVhostRule))
    } else {
        None
    }
}

proof fn lemma_groups_error_stable(gs: Seq<ClientGroupV>, n: int, m: int)
    requires
        0 <= n <= m,
        groups_error(gs, n) is Some,
    ensures
        groups_error(gs, m) == groups_error(gs, n),
    decreases m - n,
{
    if m > n {
        lemma_groups_error_stable(gs, n, m - 1);
    }
}

proof fn lemma_vhost_rules_error_stable(rs: Seq<IngressVhostRuleV>, n: int, m: int)
    requires
        0 <= n <= m,
        vhost_rules_error(rs, n) is Some,
    ensures
        vhost_rules_error(rs, m) == vhost_rules_error(rs, n),
    decreases m - n,
{
    if m > n {
        lemma_vhost_rules_error_stable(rs, n, m - 1);
    }
}

proof fn lemma_listeners_error_stable(ls: Seq<IngressListenerV>, n: int, m: int)
    requires
        0 <= n <= m,
        listeners_error(ls, n) is Some,
    ensures
        listeners_error(ls, m) == listeners_error(ls, n),
    decreases m - n,
{
    if m > n {
        lemma_listeners_error_stable(ls, n, m - 1);
    }
}

proof fn lemma_egress_rules_error_stable(rs: Seq<EgressVhostRuleV>, n: int, m: int)
    requires
        0 <= n <= m,
        egress_rules_error(rs, n) is Some,
    ensures
        egress_rules_error(rs, m) == egress_rules_error(rs, n),
    decreases m - n,
{
    if m > n {
        lemma_egress_rules_error_stable(rs, n, m - 1);
    }
}

/// Whether no two strings of `v` are equal.
fn strings_distinct(v: &Vec<String>) -> (r: bool)
    ensures
        r == distinct(seq_view(v@)),
{
    let ghost s = seq_view(v@);
    let mut j: usize = 0;
    while j < v.len()
        invariant
            j <= v@.len(),
            s == seq_view(v@),
            forall|a: int, b: int| 0 <= a < b < j ==> (#[trigger] s[a]) != (#[trigger] s[b]),
        decreases v@.len() - j,
    {
        let mut i: usize = 0;
        while i < j
            invariant
                i <= j < v@.len(),
                s == seq_view(v@),
                forall|a: int| 0 <= a < i ==> (#[trigger] s[a]) != s[j as int],
            decreases j - i,
        {
            if string_eq(&v[i], &v[j]) {
                assert(s[i as int] == s[j as int]);
                return false;
            }
            i = i + 1;
        }
        j = j + 1;
    }
    true
}

/// The trimmed identifier, or the error naming `field` when nothing is left.
fn normalized_identifier(value: &String, field: IdField) -> (r: Result<String, LayerError>)
    ensures
        match r {
            Ok(s) => id_ok(value@) && s@ == trim_uws(value@),
            Err(e) => !id_ok(value@) && e@ == LayerErrorV::EmptyIdentifier(field),
        },
{
    let t = trim_string(value.as_str());
    if t.as_str().is_empty() {
        return Err(LayerError::EmptyIdentifier(field));
    }
    Ok(t)
}

/// The canonical form of a host, or the error that refuses it.
fn normalized_host(value: &String) -> (r: Result<String, LayerError>)
    ensures
        match r {
            Ok(s) => canonical_host(value@) is Ok && s@ == host_key(value@),
            Err(e) => canonical_host(value@) is Err && e@ == LayerErrorV::InvalidHost(
                canonical_host(value@)->Err_0,
            ),
        },
{
    match canonicalize_egress_host(value.as_str()) {
        Ok(h) => Ok(h),
        Err(e) => Err(LayerError::InvalidHost(e)),
    }
}

fn normalize_group(g: &ClientGroupDef) -> (r: Result<ClientGroupDef, LayerError>)
    ensures
        match r {
            Ok(n) => group_error(g@) is None && n@ == norm_group(g@),
            Err(e) => group_error(g@) == Some(e@),
        },
{
    let group_id = normalized_identifier(&g.group_id, IdField::ClientGroupId)?;
    let ghost ups = g@.upstreams;
    let mut upstreams: Vec<ClientUpstreamDef> = Vec::new();
    let mut names: Vec<String> = Vec::new();
    let mut k: usize = 0;
    while k < g.upstreams.len()
        invariant
            k <= ups.len(),
            ups == seq_view(g.upstreams@),
            id_ok(g@.group_id),
            forall|j: int| 0 <= j < k ==> id_ok((#[trigger] ups[j]).name),
            seq_view(upstreams@) == ups.take(k as int).map_values(
                |u: ClientUpstreamV| norm_client_upstream(u),
            ),
            seq_view(names@) == ups.take(k as int).map_values(|u: ClientUpstreamV| trim_uws(u.name)),
        decreases ups.len() - k,
    {
        let u = &g.upstreams[k];
        let name = match normalized_identifier(&u.name, IdField::ClientUpstreamName) {
            Ok(n) => n,
            Err(e) => {
                assert(!id_ok(ups[k as int].name));
                return Err(e);
            },
        };
        let ghost before_u = seq_view(upstreams@);
        let ghost before_n = seq_view(names@);
        let item = ClientUpstreamDef {
            name: name.clone(),
            lb_policy: u.lb_policy.clone(),
            servers: vec_duplicate(&u.servers),
        };
        assert(item@ == norm_client_upstream(ups[k as int]));
        upstreams.push(item);
        names.push(name);
        proof {
            assert(seq_view(upstreams@) =~= before_u.push(item@));
            assert(seq_view(names@) =~= before_n.push(trim_uws(ups[k as int].name)));
            assert(ups.take(k + 1) =~= ups.take(k as int).push(ups[k as int]));
            assert(ups.take(k + 1).map_values(|u: ClientUpstreamV| norm_client_upstream(u))
                =~= ups.take(k as int).map_values(|u: ClientUpstreamV| norm_client_upstream(u)).push(
                norm_client_upstream(ups[k as int]),
            ));
            assert(ups.take(k + 1).map_values(|u: ClientUpstreamV| trim_uws(u.name)) =~= ups.take(
                k as int,
            ).map_values(|u: ClientUpstreamV| trim_uws(u.name)).push(trim_uws(ups[k as int].name)));
        }
        k = k + 1;
    }
    assert(ups.take(k as int) =~= ups);
    if !strings_distinct(&names) {
        return Err(LayerError::DuplicateKey(KeyKind::ClientUpstream));
    }
    let r = ClientGroupDef { group_id, config_version: g.config_version.clone(), upstreams };
    assert(r@ =~= norm_group(g@));
    Ok(r)
}

fn normalize_vhost_rule(r: &IngressVhostRuleDef) -> (out: Result<IngressVhostRuleDef, LayerError>)
    ensures
        match out {
            Ok(n) => vhost_rule_error(r@) is None && n@ == norm_vhost_rule(r@),
            Err(e) => vhost_rule_error(r@) == Some(e@),
        },
{
    let match_host = normalized_host(&r.match_host)?;
    let group_id = normalized_identifier(&r.group_id, IdField::IngressVhostGroupId)?;
    Ok(IngressVhostRuleDef { match_host, group_id, proxy_name: r.proxy_name.clone() })
}

fn normalize_listener(l: &IngressListenerDef) -> (r: Result<IngressListenerDef, LayerError>)
    ensures
        match r {
            Ok(n) => listener_error(l@) is None && n@ == norm_listener(l@),
            Err(e) => listener_error(l@) == Some(e@),
        },
{
    match &l.mode {
        IngressListenerModeDef::Http { vhost } => {
            let ghost rs = seq_view(vhost@);
            assert(l@.mode == IngressModeV::Http { vhost: rs });
            let mut rules: Vec<IngressVhostRuleDef> = Vec::new();
            let mut hosts: Vec<String> = Vec::new();
            let mut k: usize = 0;
            while k < vhost.len()
                invariant
                    k <= rs.len(),
                    rs == seq_view(vhost@),
                    l@.mode == (IngressModeV::Http { vhost: rs }),
                    vhost_rules_error(rs, k as int) is None,
                    seq_view(rules@) == rs.take(k as int).map_values(
                        |x: IngressVhostRuleV| norm_vhost_rule(x),
                    ),
                    seq_view(hosts@) == rs.take(k as int).map_values(
                        |x: IngressVhostRuleV| host_key(x.match_host),
                    ),
                decreases rs.len() - k,
            {
                let n = match normalize_vhost_rule(&vhost[k]) {
                    Ok(n) => n,
                    Err(e) => {
                        proof {
                            lemma_vhost_rules_error_stable(rs, k + 1, rs.len() as int);
                        }
                        return Err(e);
                    },
                };
                let ghost before_r = seq_view(rules@);
                let ghost before_h = seq_view(hosts@);
                let h = n.match_host.clone();
                rules.push(n);
                hosts.push(h);
                proof {
                    assert(seq_view(rules@) =~= before_r.push(norm_vhost_rule(rs[k as int])));
                    assert(seq_view(hosts@) =~= before_h.push(host_key(rs[k as int].match_host)));
                    assert(rs.take(k + 1) =~= rs.take(k as int).push(rs[k as int]));
                    assert(rs.take(k + 1).map_values(|x: IngressVhostRuleV| norm_vhost_rule(x))
                        =~= rs.take(k as int).map_values(|x: IngressVhostRuleV| norm_vhost_rule(x)).push(
                        norm_vhost_rule(rs[k as int]),
                    ));
                    assert(rs.take(k + 1).map_values(|x: IngressVhostRuleV| host_key(x.match_host))
                        =~= rs.take(k as int).map_values(
                        |x: IngressVhostRuleV| host_key(x.match_host),
                    ).push(host_key(rs[k as int].match_host)));
                }
                k = k + 1;
            }
            assert(rs.take(k as int) =~= rs);
            if !strings_distinct(&hosts) {
                return Err(LayerError::DuplicateKey(KeyKind::IngressVhost));
            }
            let r = IngressListenerDef {
                id: l.id,
                port: l.port,
                mode: IngressListenerModeDef::Http { vhost: rules },
            };
            assert(r@ =~= norm_listener(l@));
            Ok(r)
        },
        IngressListenerModeDef::Tcp { group_id, proxy_name } => {
            assert(l@.mode == IngressModeV::Tcp { group_id: group_id@, proxy_name: proxy_name@ });
            let g = normalized_identifier(group_id, IdField::TcpListenerGroupId)?;
            let r = IngressListenerDef {
                id: l.id,
                port: l.port,
                mode: IngressListenerModeDef::Tcp { group_id: g, proxy_name: proxy_name.clone() },
            };
            assert(r@ =~= norm_listener(l@));
            Ok(r)
        },
    }
}

fn normalize_egress_rule(r: &EgressVhostRuleDef) -> (out: Result<EgressVhostRuleDef, LayerError>)
    ensures
        match out {
            Ok(n) => egress_rule_error(r@) is None && n@ == norm_egress_rule(r@),
            Err(e) => egress_rule_error(r@) == Some(e@),
        },
{
    let match_host = normalized_host(&r.match_host)?;
    let action_upstream = normalized_identifier(&r.action_upstream, IdField::EgressVhostUpstream)?;
    Ok(EgressVhostRuleDef { match_host, action_upstream })
}

/// The normalized routing, or its first problem.
fn normalized_routing(routing: &RoutingData) -> (r: Result<RoutingData, LayerError>)
    ensures
        match r {
            Ok(n) => routing_error(routing@) is None && n@ == norm_routing(routing@),
            Err(e) => routing_error(routing@) == Some(e@),
        },
{
    let ghost rv = routing@;
    if !keys_are_unique(&routing.ingress_listeners) {
        return Err(LayerError::DuplicateKey(KeyKind::IngressListener));
    }
    let ghost gs = rv.client_groups;
    let mut groups: Vec<ClientGroupDef> = Vec::new();
    let mut ids: Vec<String> = Vec::new();
    let mut i: usize = 0;
    while i < routing.client_groups.len()
        invariant
            i <= gs.len(),
            rv == routing@,
            gs == rv.client_groups,
            keys_unique::<IngressListenerDef>(rv.ingress_listeners),
            groups_error(gs, i as int) is None,
            seq_view(groups@) == gs.take(i as int).map_values(|g: ClientGroupV| norm_group(g)),
            seq_view(ids@) == gs.take(i as int).map_values(|g: ClientGroupV| trim_uws(g.group_id)),
        decreases gs.len() - i,
    {
        let n = match normalize_group(&routing.client_groups[i]) {
            Ok(n) => n,
            Err(e) => {
                proof {
                    lemma_groups_error_stable(gs, i + 1, gs.len() as int);
                }
                return Err(e);
            },
        };
        let ghost bg = seq_view(groups@);
        let ghost bi = seq_view(ids@);
        let id = n.group_id.clone();
        groups.push(n);
        ids.push(id);
        proof {
            assert(seq_view(groups@) =~= bg.push(norm_group(gs[i as int])));
            assert(seq_view(ids@) =~= bi.push(trim_uws(gs[i as int].group_id)));
            assert(gs.take(i + 1) =~= gs.take(i as int).push(gs[i as int]));
            assert(gs.take(i + 1).map_values(|g: ClientGroupV| norm_group(g)) =~= gs.take(
                i as int,
            ).map_values(|g: ClientGroupV| norm_group(g)).push(norm_group(gs[i as int])));
            assert(gs.take(i + 1).map_values(|g: ClientGroupV| trim_uws(g.group_id)) =~= gs.take(
                i as int,
            ).map_values(|g: ClientGroupV| trim_uws(g.group_id)).push(trim_uws(gs[i as int].group_id)));
        }
        i = i + 1;
    }
    assert(gs.take(i as int) =~= gs);
    if !strings_distinct(&ids) {
        return Err(LayerError::DuplicateKey(KeyKind::ClientGroup));
    }
    let ghost ls = rv.ingress_listeners;
    let mut listeners: Vec<IngressListenerDef> = Vec::new();
    let mut i: usize = 0;
    while i < routing.ingress_listeners.len()
        invariant
            i <= ls.len(),
            rv == routing@,
            ls == rv.ingress_listeners,
            keys_unique::<IngressListenerDef>(ls),
            groups_error(gs, gs.len() as int) is None,
            gs == rv.client_groups,
            distinct(gs.map_values(|g: ClientGroupV| trim_uws(g.group_id))),
            listeners_error(ls, i as int) is None,
            seq_view(listeners@) == ls.take(i as int).map_values(|l: IngressListenerV| norm_listener(l)),
        decreases ls.len() - i,
    {
        let n = match normalize_listener(&routing.ingress_listeners[i]) {
            Ok(n) => n,
            Err(e) => {
                proof {
                    lemma_listeners_error_stable(ls, i + 1, ls.len() as int);
                }
                return Err(e);
            },
        };
        let ghost bl = seq_view(listeners@);
        listeners.push(n);
        proof {
            assert(seq_view(listeners@) =~= bl.push(norm_listener(ls[i as int])));
            assert(ls.take(i + 1) =~= ls.take(i as int).push(ls[i as int]));
            assert(ls.take(i + 1).map_values(|l: IngressListenerV| norm_listener(l)) =~= ls.take(
                i as int,
            ).map_values(|l: IngressListenerV| norm_listener(l)).push(norm_listener(ls[i as int])));
        }
        i = i + 1;
    }
    assert(ls.take(i as int) =~= ls);
    let ghost us = rv.egress_upstreams;
    let mut upstreams: Vec<EgressUpstreamDef> = Vec::new();
    let mut names: Vec<String> = Vec::new();
    let mut i: usize = 0;
    while i < routing.egress_upstreams.len()
        invariant
            i <= us.len(),
            rv == routing@,
            us == rv.egress_upstreams,
            ls == rv.ingress_listeners,
            gs == rv.client_groups,
            keys_unique::<IngressListenerDef>(ls),
            groups_error(gs, gs.len() as int) is None,
            distinct(gs.map_values(|g: ClientGroupV| trim_uws(g.group_id))),
            listeners_error(ls, ls.len() as int) is None,
            forall|j: int| 0 <= j < i ==> id_ok((#[trigger] us[j]).name),
            seq_view(upstreams@) == us.take(i as int).map_values(
                |u: EgressUpstreamV| norm_egress_upstream(u),
            ),
            seq_view(names@) == us.take(i as int).map_values(|u: EgressUpstreamV| trim_uws(u.name)),
        decreases us.len() - i,
    {
        let u = &routing.egress_upstreams[i];
        let name = match normalized_identifier(&u.name, IdField::EgressUpstreamName) {
            Ok(n) => n,
            Err(e) => {
                assert(!id_ok(us[i as int].name));
                return Err(e);
            },
        };
        let ghost bu = seq_view(upstreams@);
        let ghost bn = seq_view(names@);
        let item = EgressUpstreamDef {
            name: name.clone(),
            lb_policy: u.lb_policy.clone(),
            servers: vec_duplicate(&u.servers),
        };
        assert(item@ == norm_egress_upstream(us[i as int]));
        upstreams.push(item);
        names.push(name);
        proof {
            assert(seq_view(upstreams@) =~= bu.push(norm_egress_upstream(us[i as int])));
            assert(seq_view(names@) =~= bn.push(trim_uws(us[i as int].name)));
            assert(us.take(i + 1) =~= us.take(i as int).push(us[i as int]));
            assert(us.take(i + 1).map_values(|u: EgressUpstreamV| norm_egress_upstream(u))
                =~= us.take(i as int).map_values(|u: EgressUpstreamV| norm_egress_upstream(u)).push(
                norm_egress_upstream(us[i as int]),
            ));
            assert(us.take(i + 1).map_values(|u: EgressUpstreamV| trim_uws(u.name)) =~= us.take(
                i as int,
            ).map_values(|u: EgressUpstreamV| trim_uws(u.name)).push(trim_uws(us[i as int].name)));
        }
        i = i + 1;
    }
    assert(us.take(i as int) =~= us);
    if !strings_distinct(&names) {
        return Err(LayerError::DuplicateKey(KeyKind::EgressUpstream));
    }
    let ghost rs = rv.egress_vhost_rules;
    let mut rules: Vec<EgressVhostRuleDef> = Vec::new();
    let mut hosts: Vec<String> = Vec::new();
    let mut i: usize = 0;
    while i < routing.egress_vhost_rules.len()
        invariant
            i <= rs.len(),
            rv == routing@,
            rs == rv.egress_vhost_rules,
            us == rv.egress_upstreams,
            ls == rv.ingress_listeners,
            gs == rv.client_groups,
            keys_unique::<IngressListenerDef>(ls),
            groups_error(gs, gs.len() as int) is None,
            distinct(gs.map_values(|g: ClientGroupV| trim_uws(g.group_id))),
            listeners_error(ls, ls.len() as int) is None,
            forall|j: int| 0 <= j < us.len() ==> id_ok((#[trigger] us[j]).name),
            distinct(us.map_values(|u: EgressUpstreamV| trim_uws(u.name))),
            egress_rules_error(rs, i as int) is None,
            seq_view(rules@) == rs.take(i as int).map_values(|x: EgressVhostRuleV| norm_egress_rule(x)),
            seq_view(hosts@) == rs.take(i as int).map_values(
                |x: EgressVhostRuleV| host_key(x.match_host),
            ),
        decreases rs.len() - i,
    {
        let n = match normalize_egress_rule(&routing.egress_vhost_rules[i]) {
            Ok(n) => n,
            Err(e) => {
                proof {
                    lemma_egress_rules_error_stable(rs, i + 1, rs.len() as int);
                }
                return Err(e);
            },
        };
        let ghost br = seq_view(rules@);
        let ghost bh = seq_view(hosts@);
        let h = n.match_host.clone();
        rules.push(n);
        hosts.push(h);
        proof {
            assert(seq_view(rules@) =~= br.push(norm_egress_rule(rs[i as int])));
            assert(seq_view(hosts@) =~= bh.push(host_key(rs[i as int].match_host)));
            assert(rs.take(i + 1) =~= rs.take(i as int).push(rs[i as int]));
            assert(rs.take(i + 1).map_values(|x: EgressVhostRuleV| norm_egress_rule(x)) =~= rs.take(
                i as int,
            ).map_values(|x: EgressVhostRuleV| norm_egress_rule(x)).push(norm_egress_rule(rs[i as int])));
            assert(rs.take(i + 1).map_values(|x: EgressVhostRuleV| host_key(x.match_host))
                =~= rs.take(i as int).map_values(|x: EgressVhostRuleV| host_key(x.match_host)).push(
                host_key(rs[i as int].match_host),
            ));
        }
        i = i + 1;
    }
    assert(rs.take(i as int) =~= rs);
    if !strings_distinct(&hosts) {
        return Err(LayerError::DuplicateKey(KeyKind::EgressVhostRule));
    }
    let r = RoutingData {
        ingress_listeners: listeners,
        client_groups: groups,
        egress_upstreams: upstreams,
        egress_vhost_rules: rules,
    };
    assert(r@ =~= norm_routing(rv));
    Ok(r)
}

/// Trims the identifiers of `routing` and brings its hosts into canonical
/// form, checking that no key repeats; on a refusal `routing` is left as it
/// was.
pub fn normalize_and_validate_routing(routing: &mut RoutingData) -> (r: Result<(), LayerError>)
    ensures
        match r {
            Ok(()) => routing_error(old(routing)@) is None && final(routing)@ == norm_routing(
                old(routing)@,
            ),
            Err(e) => routing_error(old(routing)@) == Some(e@) && final(routing)@ == old(routing)@,
        },
{
    let n = normalized_routing(routing)?;
    *routing = n;
    Ok(())
}

/// Keys deleted by the override layer, per collection.
#[derive(Debug, Clone, Default, PartialEq, Eq)]
pub struct OverrideTombstones {
    pub ingress_ports: Vec<u16>,
    pub client_groups: Vec<String>,
    pub egress_upstreams: Vec<String>,
    pub egress_vhost_rules: Vec<String>,
}

pub struct TombstonesV {
    pub ingress_ports: Seq<u16>,
    pub client_groups: Seq<Seq<char>>,
    pub egress_upstreams: Seq<Seq<char>>,
    pub egress_vhost_rules: Seq<Seq<char>>,
}

impl View for OverrideTombstones {
    type V = TombstonesV;

    open spec fn view(&self) -> TombstonesV {
        TombstonesV {
            ingress_ports: self.ingress_ports@,
            client_groups: seq_view(self.client_groups@),
            egress_upstreams: seq_view(self.egress_upstreams@),
            egress_vhost_rules: seq_view(self.egress_vhost_rules@),
        }
    }
}

/// The override layer kept in SQLite: records that replace those of the
/// base layer, and keys that delete them.
#[derive(Debug, Clone, PartialEq, Eq)]
pub struct SqliteOverrideLayer {
    pub routing: RoutingData,
    pub tombstones: OverrideTombstones,
}

pub struct OverridesV {
    pub routing: RoutingDataV,
    pub tombstones: TombstonesV,
}

impl View for SqliteOverrideLayer {
    type V = OverridesV;

    open spec fn view(&self) -> OverridesV {
        OverridesV { routing: self.routing@, tombstones: self.tombstones@ }
    }
}

/// The base layer read from the YAML file, with the revision of its bytes.
#[derive(Debug, Clone, PartialEq, Eq)]
pub struct ConfigLayer {
    pub source_revision: String,
    pub routing: RoutingData,
}

/// The override layer with the revision it was stored under.
#[derive(Debug, Clone, PartialEq, Eq)]
pub struct SqliteConfigLayer {
    pub source_revision: String,
    pub overrides: SqliteOverrideLayer,
}

pub open spec fn norm_tombstones(t: TombstonesV) -> TombstonesV {
    TombstonesV {
        ingress_ports: t.ingress_ports,
        client_groups: t.client_groups.map_values(|k: Seq<char>| trim_uws(k)),
        egress_upstreams: t.egress_upstreams.map_values(|k: Seq<char>| trim_uws(k)),
        egress_vhost_rules: t.egress_vhost_rules.map_values(|k: Seq<char>| host_key(k)),
    }
}

pub open spec fn norm_overrides(o: OverridesV) -> OverridesV {
    OverridesV { routing: norm_routing(o.routing), tombstones: norm_tombstones(o.tombstones) }
}

/// No two ports of `ps` are equal.
pub open spec fn distinct_ports(ps: Seq<u16>) -> bool {
    forall|i: int, j: int| 0 <= i < j < ps.len() ==> (#[trigger] ps[i]) != (#[trigger] ps[j])
}

/// The first host tombstone among the first `n` without a canonical form.
pub open spec fn host_tombstones_error(ks: Seq<Seq<char>>, n: int) -> Option<LayerErrorV>
    decreases n,
{
    if n <= 0 {
        None
    } else {
        match host_tombstones_error(ks, n - 1) {
            Some(e) => Some(e),
            None => match canonical_host(ks[n - 1]) {
                Err(e) => Some(LayerErrorV::InvalidHost(e)),
                Ok(_) => None,
            },
        }
    }
}

/// The first problem of the tombstones, checked after the routing: repeated
/// ports, blank or repeated group and upstream keys, hosts without a
/// canonical form or repeated once canonical.
pub open spec fn tombstones_error(t: TombstonesV) -> Option<LayerErrorV> {
    if !distinct_ports(t.ingress_ports) {
        Some(LayerErrorV::DuplicateKey(KeyKind::IngressListenerTombstone))
    } else if exists|i: int| 0 <= i < t.client_groups.len() && !id_ok(#[trigger] t.client_groups[i]) {
        Some(LayerErrorV::EmptyIdentifier(IdField::ClientGroupTombstone))
    } else if !distinct(t.client_groups.map_values(|k: Seq<char>| trim_uws(k))) {
        Some(LayerErrorV::DuplicateKey(KeyKind::ClientGroupTombstone))
    } else if exists|i: int|
        0 <= i < t.egress_upstreams.len() && !id_ok(#[trigger] t.egress_upstreams[i]) {
        Some(LayerErrorV::EmptyIdentifier(IdField::EgressUpstreamTombstone))
    } else if !distinct(t.egress_upstreams.map_values(|k: Seq<char>| trim_uws(k))) {
        Some(LayerErrorV::DuplicateKey(KeyKind::EgressUpstreamTombstone))
    } else if host_tombstones_error(t.egress_vhost_rules, t.egress_vhost_rules.len() as int) is Some {
        host_tombstones_error(t.egress_vhost_rules, t.egress_vhost_rules.len() as int)
    } else if !distinct(t.egress_vhost_rules.map_values(|k: Seq<char>| host_key(k))) {
        Some(LayerErrorV::DuplicateKey(KeyKind::EgressVhostRuleTombstone))
    } else {
        None
    }
}

/// A normalized override layer whose overrides and tombstones share a key,
/// per collection in the order listeners, groups, upstreams, vhost rules.
pub open spec fn conflict_error(o: OverridesV) -> Option<LayerErrorV> {
    let r = o.routing;
    let t = o.tombstones;
    if exists|i: int|
        0 <= i < r.ingress_listeners.len() && t.ingress_ports.contains(
            (#[trigger] r.ingress_listeners[i]).port,
        ) {
        Some(LayerErrorV::OverrideTombstoneConflict(ConflictKind::IngressListener))
    } else if exists|i: int|
        0 <= i < r.client_groups.len() && t.client_groups.contains(
            (#[trigger] r.client_groups[i]).group_id,
        ) {
        Some(LayerErrorV::OverrideTombstoneConflict(ConflictKind::ClientGroup))
    } else if exists|i: int|
        0 <= i < r.egress_upstreams.len() && t.egress_upstreams.contains(
            (#[trigger] r.egress_upstreams[i]).name,
        ) {
        Some(LayerErrorV::OverrideTombstoneConflict(ConflictKind::EgressUpstream))
    } else if exists|i: int|
        0 <= i < r.egress_vhost_rules.len() && t.egress_vhost_rules.contains(
            (#[trigger] r.egress_vhost_rules[i]).match_host,
        ) {
        Some(LayerErrorV::OverrideTombstoneConflict(ConflictKind::EgressVhost))
    } else {
        None
    }
}

/// The first problem of an override layer: its routing, its tombstones,
/// then keys it both overrides and deletes.
pub open spec fn overrides_error(o: OverridesV) -> Option<LayerErrorV> {
    if routing_error(o.routing) is Some {
        routing_error(o.routing)
    } else if tombstones_error(o.tombstones) is Some {
        tombstones_error(o.tombstones)
    } else {
        conflict_error(norm_overrides(o))
    }
}

proof fn lemma_host_tombstones_error_stable(ks: Seq<Seq<char>>, n: int, m: int)
    requires
        0 <= n <= m,
        host_tombstones_error(ks, n) is Some,
    ensures
        host_tombstones_error(ks, m) == host_tombstones_error(ks, n),
    decreases m - n,
{
    if m > n {
        lemma_host_tombstones_error_stable(ks, n, m - 1);
    }
}

fn ports_distinct(ps: &Vec<u16>) -> (r: bool)
    ensures
        r == distinct_ports(ps@),
{
    let mut j: usize = 0;
    while j < ps.len()
        invariant
            j <= ps@.len(),
            forall|a: int, b: int| 0 <= a < b < j ==> (#[trigger] ps@[a]) != (#[trigger] ps@[b]),
        decreases ps@.len() - j,
    {
        let mut i: usize = 0;
        while i < j
            invariant
                i <= j < ps@.len(),
                forall|a: int| 0 <= a < i ==> (#[trigger] ps@[a]) != ps@[j as int],
            decreases j - i,
        {
            if ps[i] == ps[j] {
                return false;
            }
            i = i + 1;
        }
        j = j + 1;
    }
    true
}

/// The keys trimmed, or the blank-key error for `field`.
fn normalized_keys(keys: &Vec<String>, field: IdField) -> (r: Result<Vec<String>, LayerError>)
    ensures
        match r {
            Ok(v) => (forall|i: int| 0 <= i < keys@.len() ==> id_ok(#[trigger] seq_view(keys@)[i]))
                && seq_view(v@) == seq_view(keys@).map_values(|k: Seq<char>| trim_uws(k)),
            Err(e) => (exists|i: int| 0 <= i < keys@.len() && !id_ok(#[trigger] seq_view(keys@)[i]))
                && e@ == LayerErrorV::EmptyIdentifier(field),
        },
{
    let ghost ks = seq_view(keys@);
    let mut out: Vec<String> = Vec::new();
    let mut i: usize = 0;
    while i < keys.len()
        invariant
            i <= ks.len(),
            ks == seq_view(keys@),
            forall|j: int| 0 <= j < i ==> id_ok(#[trigger] ks[j]),
            seq_view(out@) == ks.take(i as int).map_values(|k: Seq<char>| trim_uws(k)),
        decreases ks.len() - i,
    {
        let k = match normalized_identifier(&keys[i], field) {
            Ok(k) => k,
            Err(e) => {
                assert(!id_ok(ks[i as int]));
                return Err(e);
            },
        };
        let ghost b = seq_view(out@);
        out.push(k);
        proof {
            assert(seq_view(out@) =~= b.push(trim_uws(ks[i as int])));
            assert(ks.take(i + 1) =~= ks.take(i as int).push(ks[i as int]));
            assert(ks.take(i + 1).map_values(|k: Seq<char>| trim_uws(k)) =~= ks.take(i as int).map_values(
                |k: Seq<char>| trim_uws(k),
            ).push(trim_uws(ks[i as int])));
        }
        i = i + 1;
    }
    assert(ks.take(i as int) =~= ks);
    Ok(out)
}

/// The hosts in canonical form, or the first one without one.
fn normalized_hosts(keys: &Vec<String>) -> (r: Result<Vec<String>, LayerError>)
    ensures
        match r {
            Ok(v) => host_tombstones_error(seq_view(keys@), keys@.len() as int) is None
                && seq_view(v@) == seq_view(keys@).map_values(|k: Seq<char>| host_key(k)),
            Err(e) => host_tombstones_error(seq_view(keys@), keys@.len() as int) == Some(e@),
        },
{
    let ghost ks = seq_view(keys@);
    let mut out: Vec<String> = Vec::new();
    let mut i: usize = 0;
    while i < keys.len()
        invariant
            i <= ks.len(),
            ks == seq_view(keys@),
            host_tombstones_error(ks, i as int) is None,
            seq_view(out@) == ks.take(i as int).map_values(|k: Seq<char>| host_key(k)),
        decreases ks.len() - i,
    {
        let k = match normalized_host(&keys[i]) {
            Ok(k) => k,
            Err(e) => {
                proof {
                    lemma_host_tombstones_error_stable(ks, i + 1, ks.len() as int);
                }
                return Err(e);
            },
        };
        let ghost b = seq_view(out@);
        out.push(k);
        proof {
            assert(seq_view(out@) =~= b.push(host_key(ks[i as int])));
            assert(ks.take(i + 1) =~= ks.take(i as int).push(ks[i as int]));
            assert(ks.take(i + 1).map_values(|k: Seq<char>| host_key(k)) =~= ks.take(i as int).map_values(
                |k: Seq<char>| host_key(k),
            ).push(host_key(ks[i as int])));
        }
        i = i + 1;
    }
    assert(ks.take(i as int) =~= ks);
    Ok(out)
}

fn contains_port(ps: &Vec<u16>, p: u16) -> (r: bool)
    ensures
        r == ps@.contains(p),
{
    let mut i: usize = 0;
    while i < ps.len()
        invariant
            i <= ps@.len(),
            forall|j: int| 0 <= j < i ==> ps@[j] != p,
        decreases ps@.len() - i,
    {
        if ps[i] == p {
            assert(ps@[i as int] == p);
            return true;
        }
        i = i + 1;
    }
    false
}

fn contains_string(ks: &Vec<String>, k: &String) -> (r: bool)
    ensures
        r == seq_view(ks@).contains(k@),
{
    let ghost v = seq_view(ks@);
    let mut i: usize = 0;
    while i < ks.len()
        invariant
            i <= ks@.len(),
            v == seq_view(ks@),
            forall|j: int| 0 <= j < i ==> v[j] != k@,
        decreases ks@.len() - i,
    {
        if string_eq(&ks[i], k) {
            assert(v[i as int] == k@);
            return true;
        }
        i = i + 1;
    }
    false
}

/// The first override-tombstone conflict of a normalized layer.
fn find_conflict(r: &RoutingData, t: &OverrideTombstones) -> (out: Option<ConflictKind>)
    ensures
        match out {
            Some(c) => conflict_error(OverridesV { routing: r@, tombstones: t@ }) == Some(
                LayerErrorV::OverrideTombstoneConflict(c),
            ),
            None => conflict_error(OverridesV { routing: r@, tombstones: t@ }) is None,
        },
{
    let ghost o = OverridesV { routing: r@, tombstones: t@ };
    let mut i: usize = 0;
    while i < r.ingress_listeners.len()
        invariant
            i <= r.ingress_listeners@.len(),
            o == (OverridesV { routing: r@, tombstones: t@ }),
            forall|j: int|
                0 <= j < i ==> !t@.ingress_ports.contains((#[trigger] r@.ingress_listeners[j]).port),
        decreases r.ingress_listeners@.len() - i,
    {
        if contains_port(&t.ingress_ports, r.ingress_listeners[i].port) {
            assert(t@.ingress_ports.contains(r@.ingress_listeners[i as int].port));
            return Some(ConflictKind::IngressListener);
        }
        i = i + 1;
    }
    let mut i: usize = 0;
    while i < r.client_groups.len()
        invariant
            i <= r.client_groups@.len(),
            o == (OverridesV { routing: r@, tombstones: t@ }),
            forall|j: int|
                0 <= j < r@.ingress_listeners.len() ==> !t@.ingress_ports.contains(
                    (#[trigger] r@.ingress_listeners[j]).port,
                ),
            forall|j: int|
                0 <= j < i ==> !t@.client_groups.contains((#[trigger] r@.client_groups[j]).group_id),
        decreases r.client_groups@.len() - i,
    {
        if contains_string(&t.client_groups, &r.client_groups[i].group_id) {
            assert(t@.client_groups.contains(r@.client_groups[i as int].group_id));
            return Some(ConflictKind::ClientGroup);
        }
        i = i + 1;
    }
    let mut i: usize = 0;
    while i < r.egress_upstreams.len()
        invariant
            i <= r.egress_upstreams@.len(),
            o == (OverridesV { routing: r@, tombstones: t@ }),
            forall|j: int|
                0 <= j < r@.ingress_listeners.len() ==> !t@.ingress_ports.contains(
                    (#[trigger] r@.ingress_listeners[j]).port,
                ),
            forall|j: int|
                0 <= j < r@.client_groups.len() ==> !t@.client_groups.contains(
                    (#[trigger] r@.client_groups[j]).group_id,
                ),
            forall|j: int|
                0 <= j < i ==> !t@.egress_upstreams.contains((#[trigger] r@.egress_upstreams[j]).name),
        decreases r.egress_upstreams@.len() - i,
    {
        if contains_string(&t.egress_upstreams, &r.egress_upstreams[i].name) {
            assert(t@.egress_upstreams.contains(r@.egress_upstreams[i as int].name));
            return Some(ConflictKind::EgressUpstream);
        }
        i = i + 1;
    }
    let mut i: usize = 0;
    while i < r.egress_vhost_rules.len()
        invariant
            i <= r.egress_vhost_rules@.len(),
            o == (OverridesV { routing: r@, tombstones: t@ }),
            forall|j: int|
                0 <= j < r@.ingress_listeners.len() ==> !t@.ingress_ports.contains(
                    (#[trigger] r@.ingress_listeners[j]).port,
                ),
            forall|j: int|
                0 <= j < r@.client_groups.len() ==> !t@.client_groups.contains(
                    (#[trigger] r@.client_groups[j]).group_id,
                ),
            forall|j: int|
                0 <= j < r@.egress_upstreams.len() ==> !t@.egress_upstreams.contains(
                    (#[trigger] r@.egress_upstreams[j]).name,
                ),
            forall|j: int|
                0 <= j < i ==> !t@.egress_vhost_rules.contains(
                    (#[trigger] r@.egress_vhost_rules[j]).match_host,
                ),
        decreases r.egress_vhost_rules@.len() - i,
    {
        if contains_string(&t.egress_vhost_rules, &r.egress_vhost_rules[i].match_host) {
            assert(t@.egress_vhost_rules.contains(r@.egress_vhost_rules[i as int].match_host));
            return Some(ConflictKind::EgressVhost);
        }
        i = i + 1;
    }
    None
}

/// The normalized override layer, or its first problem.
fn normalized_overrides(o: &SqliteOverrideLayer) -> (r: Result<SqliteOverrideLayer, LayerError>)
    ensures
        match r {
            Ok(n) => overrides_error(o@) is None && n@ == norm_overrides(o@),
            Err(e) => overrides_error(o@) == Some(e@),
        },
{
    let routing = normalized_routing(&o.routing)?;
    let t = &o.tombstones;
    if !ports_distinct(&t.ingress_ports) {
        return Err(LayerError::DuplicateKey(KeyKind::IngressListenerTombstone));
    }
    let groups = normalized_keys(&t.client_groups, IdField::ClientGroupTombstone)?;
    if !strings_distinct(&groups) {
        return Err(LayerError::DuplicateKey(KeyKind::ClientGroupTombstone));
    }
    let upstreams = normalized_keys(&t.egress_upstreams, IdField::EgressUpstreamTombstone)?;
    if !strings_distinct(&upstreams) {
        return Err(LayerError::DuplicateKey(KeyKind::EgressUpstreamTombstone));
    }
    let hosts = normalized_hosts(&t.egress_vhost_rules)?;
    if !strings_distinct(&hosts) {
        return Err(LayerError::DuplicateKey(KeyKind::EgressVhostRuleTombstone));
    }
    let tombstones = OverrideTombstones {
        ingress_ports: t.ingress_ports.clone(),
        client_groups: groups,
        egress_upstreams: upstreams,
        egress_vhost_rules: hosts,
    };
    assert(tombstones@ =~= norm_tombstones(t@));
    assert(tombstones_error(t@) is None);
    match find_conflict(&routing, &tombstones) {
        Some(c) => Err(LayerError::OverrideTombstoneConflict(c)),
        None => Ok(SqliteOverrideLayer { routing, tombstones }),
    }
}

/// Normalizes the override layer and checks it; on a refusal it is left as
/// it was.
pub fn normalize_and_validate_overrides(overrides: &mut SqliteOverrideLayer) -> (r: Result<
    (),
    LayerError,
>)
    ensures
        match r {
            Ok(()) => overrides_error(old(overrides)@) is None && final(overrides)@ == norm_overrides(
                old(overrides)@,
            ),
            Err(e) => overrides_error(old(overrides)@) == Some(e@) && final(overrides)@ == old(
                overrides,
            )@,
        },
{
    let n = normalized_overrides(overrides)?;
    *overrides = n;
    Ok(())
}

/// Normalizes the routing of a base layer and checks it.
pub fn normalize_and_validate_config_layer(layer: &mut ConfigLayer) -> (r: Result<(), LayerError>)
    ensures
        final(layer).source_revision@ == old(layer).source_revision@,
        match r {
            Ok(()) => routing_error(old(layer).routing@) is None && final(layer).routing@
                == norm_routing(old(layer).routing@),
            Err(e) => routing_error(old(layer).routing@) == Some(e@) && final(layer).routing@ == old(
                layer,
            ).routing@,
        },
{
    normalize_and_validate_routing(&mut layer.routing)
}

/// `items` after upserting each record of `news`, in order.
pub open spec fn upsert_all<T: Keyed>(items: Seq<T::V>, news: Seq<T::V>) -> Seq<T::V>
    decreases news.len(),
{
    if news.len() == 0 {
        items
    } else {
        upsert_spec::<T>(upsert_all::<T>(items, news.drop_last()), news.last())
    }
}

/// The records of `items` whose key is not among `keys`.
pub open spec fn without_keys<T: Keyed>(items: Seq<T::V>, keys: Seq<<T::Key as View>::V>) -> Seq<T::V> {
    items.filter(|v: T::V| !keys.contains(T::key_of(v)))
}

/// The base routing with tombstoned records dropped and the override
/// records upserted over it, collection by collection.
pub open spec fn combine(b: RoutingDataV, o: OverridesV) -> RoutingDataV {
    RoutingDataV {
        ingress_listeners: upsert_all::<IngressListenerDef>(
            without_keys::<IngressListenerDef>(b.ingress_listeners, o.tombstones.ingress_ports),
            o.routing.ingress_listeners,
        ),
        client_groups: upsert_all::<ClientGroupDef>(
            without_keys::<ClientGroupDef>(b.client_groups, o.tombstones.client_groups),
            o.routing.client_groups,
        ),
        egress_upstreams: upsert_all::<EgressUpstreamDef>(
            without_keys::<EgressUpstreamDef>(b.egress_upstreams, o.tombstones.egress_upstreams),
            o.routing.egress_upstreams,
        ),
        egress_vhost_rules: upsert_all::<EgressVhostRuleDef>(
            without_keys::<EgressVhostRuleDef>(b.egress_vhost_rules, o.tombstones.egress_vhost_rules),
            o.routing.egress_vhost_rules,
        ),
    }
}

/// Some client group has the id `id`.
pub open spec fn has_group(r: RoutingDataV, id: Seq<char>) -> bool {
    exists|i: int| 0 <= i < r.client_groups.len() && (#[trigger] r.client_groups[i]).group_id == id
}

/// Some egress upstream is named `name`.
pub open spec fn has_upstream(r: RoutingDataV, name: Seq<char>) -> bool {
    exists|i: int| 0 <= i < r.egress_upstreams.len() && (#[trigger] r.egress_upstreams[i]).name == name
}

/// The first unknown group among the first `n` rules.
pub open spec fn vhost_refs_error(r: RoutingDataV, rules: Seq<IngressVhostRuleV>, n: int) -> Option<
    LayerErrorV,
>
    decreases n,
{
    if n <= 0 {
        None
    } else {
        match vhost_refs_error(r, rules, n - 1) {
            Some(e) => Some(e),
            None => if !has_group(r, rules[n - 1].group_id) {
                Some(LayerErrorV::UnknownVhostGroup(rules[n - 1].group_id))
            } else {
                None
            },
        }
    }
}

/// The first unknown group among the first `n` listeners.
pub open spec fn listener_refs_error(r: RoutingDataV, n: int) -> Option<LayerErrorV>
    decreases n,
{
    if n <= 0 {
        None
    } else {
        match listener_refs_error(r, n - 1) {
            Some(e) => Some(e),
            None => match r.ingress_listeners[n - 1].mode {
                IngressModeV::Http { vhost } => vhost_refs_error(r, vhost, vhost.len() as int),
                IngressModeV::Tcp { group_id, proxy_name } => if !has_group(r, group_id) {
                    Some(LayerErrorV::UnknownTcpGroup(group_id))
                } else {
                    None
                },
            },
        }
    }
}

/// The first unknown upstream among the first `n` egress rules.
pub open spec fn egress_refs_error(r: RoutingDataV, n: int) -> Option<LayerErrorV>
    decreases n,
{
    if n <= 0 {
        None
    } else {
        match egress_refs_error(r, n - 1) {
            Some(e) => Some(e),
            None => if !has_upstream(r, r.egress_vhost_rules[n - 1].action_upstream) {
                Some(LayerErrorV::UnknownUpstream(r.egress_vhost_rules[n - 1].action_upstream))
            } else {
                None
            },
        }
    }
}

/// The first reference of a routing that resolves to nothing: listener
/// groups first, then egress upstreams.
pub open spec fn references_error(r: RoutingDataV) -> Option<LayerErrorV> {
    if listener_refs_error(r, r.ingress_listeners.len() as int) is Some {
        listener_refs_error(r, r.ingress_listeners.len() as int)
    } else {
        egress_refs_error(r, r.egress_vhost_rules.len() as int)
    }
}

/// The effective routing of a base layer and an override layer: both
/// normalized and checked, combined, normalized and checked again, and
/// every reference resolved.
pub open spec fn merge_spec(base: RoutingDataV, o: OverridesV) -> Result<RoutingDataV, LayerErrorV> {
    if routing_error(base) is Some {
        Err(routing_error(base)->Some_0)
    } else if overrides_error(o) is Some {
        Err(overrides_error(o)->Some_0)
    } else {
        let c = combine(norm_routing(base), norm_overrides(o));
        if routing_error(c) is Some {
            Err(routing_error(c)->Some_0)
        } else if references_error(norm_routing(c)) is Some {
            Err(references_error(norm_routing(c))->Some_0)
        } else {
            Ok(norm_routing(c))
        }
    }
}

proof fn lemma_vhost_refs_stable(r: RoutingDataV, rules: Seq<IngressVhostRuleV>, n: int, m: int)
    requires
        0 <= n <= m,
        vhost_refs_error(r, rules, n) is Some,
    ensures
        vhost_refs_error(r, rules, m) == vhost_refs_error(r, rules, n),
    decreases m - n,
{
    if m > n {
        lemma_vhost_refs_stable(r, rules, n, m - 1);
    }
}

proof fn lemma_listener_refs_stable(r: RoutingDataV, n: int, m: int)
    requires
        0 <= n <= m,
        listener_refs_error(r, n) is Some,
    ensures
        listener_refs_error(r, m) == listener_refs_error(r, n),
    decreases m - n,
{
    if m > n {
        lemma_listener_refs_stable(r, n, m - 1);
    }
}

proof fn lemma_egress_refs_stable(r: RoutingDataV, n: int, m: int)
    requires
        0 <= n <= m,
        egress_refs_error(r, n) is Some,
    ensures
        egress_refs_error(r, m) == egress_refs_error(r, n),
    decreases m - n,
{
    if m > n {
        lemma_egress_refs_stable(r, n, m - 1);
    }
}

fn group_exists(r: &RoutingData, id: &String) -> (out: bool)
    ensures
        out == has_group(r@, id@),
{
    let mut i: usize = 0;
    while i < r.client_groups.len()
        invariant
            i <= r.client_groups@.len(),
            forall|j: int| 0 <= j < i ==> (#[trigger] r@.client_groups[j]).group_id != id@,
        decreases r.client_groups@.len() - i,
    {
        if string_eq(&r.client_groups[i].group_id, id) {
            assert(r@.client_groups[i as int].group_id == id@);
            return true;
        }
        i = i + 1;
    }
    false
}

fn upstream_exists(r: &RoutingData, name: &String) -> (out: bool)
    ensures
        out == has_upstream(r@, name@),
{
    let mut i: usize = 0;
    while i < r.egress_upstreams.len()
        invariant
            i <= r.egress_upstreams@.len(),
            forall|j: int| 0 <= j < i ==> (#[trigger] r@.egress_upstreams[j]).name != name@,
        decreases r.egress_upstreams@.len() - i,
    {
        if string_eq(&r.egress_upstreams[i].name, name) {
            assert(r@.egress_upstreams[i as int].name == name@);
            return true;
        }
        i = i + 1;
    }
    false
}

/// Checks that every group and upstream a routing refers to exists.
fn validate_routing_references(r: &RoutingData) -> (out: Result<(), LayerError>)
    ensures
        match out {
            Ok(()) => references_error(r@) is None,
            Err(e) => references_error(r@) == Some(e@),
        },
{
    let ghost rv = r@;
    let mut i: usize = 0;
    while i < r.ingress_listeners.len()
        invariant
            i <= rv.ingress_listeners.len(),
            rv == r@,
            listener_refs_error(rv, i as int) is None,
        decreases rv.ingress_listeners.len() - i,
    {
        match &r.ingress_listeners[i].mode {
            IngressListenerModeDef::Http { vhost } => {
                let ghost rules = seq_view(vhost@);
                assert(rv.ingress_listeners[i as int].mode == IngressModeV::Http { vhost: rules });
                let mut k: usize = 0;
                while k < vhost.len()
                    invariant
                        k <= rules.len(),
                        rules == seq_view(vhost@),
                        rv == r@,
                        i < rv.ingress_listeners.len(),
                        rv.ingress_listeners[i as int].mode == (IngressModeV::Http { vhost: rules }),
                        listener_refs_error(rv, i as int) is None,
                        vhost_refs_error(rv, rules, k as int) is None,
                    decreases rules.len() - k,
                {
                    if !group_exists(r, &vhost[k].group_id) {
                        proof {
                            lemma_vhost_refs_stable(rv, rules, k + 1, rules.len() as int);
                            lemma_listener_refs_stable(rv, i + 1, rv.ingress_listeners.len() as int);
                        }
                        return Err(LayerError::UnknownVhostGroup(vhost[k].group_id.clone()));
                    }
                    k = k + 1;
                }
            },
            IngressListenerModeDef::Tcp { group_id, proxy_name } => {
                assert(rv.ingress_listeners[i as int].mode == IngressModeV::Tcp {
                    group_id: group_id@,
                    proxy_name: proxy_name@,
                });
                if !group_exists(r, group_id) {
                    proof {
                        lemma_listener_refs_stable(rv, i + 1, rv.ingress_listeners.len() as int);
                    }
                    return Err(LayerError::UnknownTcpGroup(group_id.clone()));
                }
            },
        }
        i = i + 1;
    }
    let mut k: usize = 0;
    while k < r.egress_vhost_rules.len()
        invariant
            k <= rv.egress_vhost_rules.len(),
            rv == r@,
            listener_refs_error(rv, rv.ingress_listeners.len() as int) is None,
            egress_refs_error(rv, k as int) is None,
        decreases rv.egress_vhost_rules.len() - k,
    {
        if !upstream_exists(r, &r.egress_vhost_rules[k].action_upstream) {
            proof {
                lemma_egress_refs_stable(rv, k + 1, rv.egress_vhost_rules.len() as int);
            }
            return Err(LayerError::UnknownUpstream(r.egress_vhost_rules[k].action_upstream.clone()));
        }
        k = k + 1;
    }
    Ok(())
}

/// The records of `items` whose key is not among `keys`.
fn retain_without_keys<T: Keyed>(items: &Vec<T>, keys: &Vec<T::Key>) -> (r: Vec<T>)
    ensures
        seq_view(r@) == without_keys::<T>(seq_view(items@), seq_view(keys@)),
{
    let ghost iv = seq_view(items@);
    let ghost kv = seq_view(keys@);
    let ghost pred = |v: T::V| !kv.contains(T::key_of(v));
    let mut out: Vec<T> = Vec::new();
    let mut i: usize = 0;
    assert(iv.take(0).filter(pred) =~= Seq::<T::V>::empty()) by {
        reveal(Seq::filter);
    }
    while i < items.len()
        invariant
            i <= iv.len(),
            iv == seq_view(items@),
            kv == seq_view(keys@),
            pred == (|v: T::V| !kv.contains(T::key_of(v))),
            seq_view(out@) == iv.take(i as int).filter(pred),
        decreases iv.len() - i,
    {
        let k = items[i].key();
        let mut found = false;
        let mut j: usize = 0;
        while j < keys.len()
            invariant
                j <= kv.len(),
                kv == seq_view(keys@),
                k@ == T::key_of(iv[i as int]),
                i < iv.len(),
                found ==> kv.contains(k@),
                !found ==> forall|a: int| 0 <= a < j ==> kv[a] != k@,
            decreases kv.len() - j,
        {
            if !found && T::key_eq(&keys[j], &k) {
                assert(kv[j as int] == k@);
                found = true;
            }
            j = j + 1;
        }
        assert(iv.take(i + 1).drop_last() =~= iv.take(i as int));
        assert(iv.take(i + 1).last() == iv[i as int]);
        proof {
            reveal(Seq::filter);
        }
        if !found {
            let ghost before = seq_view(out@);
            out.push(items[i].duplicate());
            assert(seq_view(out@) =~= before.push(iv[i as int]));
        }
        i = i + 1;
    }
    assert(iv.take(i as int) =~= iv);
    out
}

/// `items` after upserting each record of `news`, in order.
fn upsert_each<T: Keyed>(items: &mut Vec<T>, news: &Vec<T>)
    ensures
        seq_view(final(items)@) == upsert_all::<T>(seq_view(old(items)@), seq_view(news@)),
{
    let ghost start = seq_view(items@);
    let ghost nv = seq_view(news@);
    let mut i: usize = 0;
    assert(nv.take(0) =~= Seq::<T::V>::empty());
    while i < news.len()
        invariant
            i <= nv.len(),
            nv == seq_view(news@),
            seq_view(items@) == upsert_all::<T>(start, nv.take(i as int)),
        decreases nv.len() - i,
    {
        upsert_by_key(items, news[i].duplicate());
        assert(nv.take(i + 1).drop_last() =~= nv.take(i as int));
        assert(nv.take(i + 1).last() == nv[i as int]);
        i = i + 1;
    }
    assert(nv.take(i as int) =~= nv);
}

/// The effective routing of a base layer under an override layer.
pub fn merge_layers(base: &RoutingData, overrides: &SqliteOverrideLayer) -> (r: Result<
    RoutingData,
    LayerError,
>)
    ensures
        match r {
            Ok(m) => merge_spec(base@, overrides@) == Ok::<RoutingDataV, LayerErrorV>(m@),
            Err(e) => merge_spec(base@, overrides@) == Err::<RoutingDataV, LayerErrorV>(e@),
        },
{
    let nb = normalized_routing(base)?;
    let no = normalized_overrides(overrides)?;
    let t = &no.tombstones;
    let mut listeners = retain_without_keys(&nb.ingress_listeners, &t.ingress_ports);
    upsert_each(&mut listeners, &no.routing.ingress_listeners);
    let mut groups = retain_without_keys(&nb.client_groups, &t.client_groups);
    upsert_each(&mut groups, &no.routing.client_groups);
    let mut upstreams = retain_without_keys(&nb.egress_upstreams, &t.egress_upstreams);
    upsert_each(&mut upstreams, &no.routing.egress_upstreams);
    let mut rules = retain_without_keys(&nb.egress_vhost_rules, &t.egress_vhost_rules);
    upsert_each(&mut rules, &no.routing.egress_vhost_rules);
    let combined = RoutingData {
        ingress_listeners: listeners,
        client_groups: groups,
        egress_upstreams: upstreams,
        egress_vhost_rules: rules,
    };
    assert(seq_view(t.ingress_ports@) =~= t@.ingress_ports);
    assert(combined@ =~= combine(norm_routing(base@), norm_overrides(overrides@)));
    let result = normalized_routing(&combined)?;
    validate_routing_references(&result)?;
    Ok(result)
}

/// `items` with `item` appended unless already there.
pub open spec fn insert_unique<K>(items: Seq<K>, item: K) -> Seq<K> {
    if items.contains(item) {
        items
    } else {
        items.push(item)
    }
}

/// `items` without any `item`.
pub open spec fn without<K>(items: Seq<K>, item: K) -> Seq<K> {
    items.filter(|x: K| x != item)
}

/// The change one operation makes to a normalized override layer, or the
/// error that refuses it: an upsert replaces the record with its key and
/// lifts the key's tombstone, a deletion drops the record and sets the
/// tombstone; group and upstream keys are trimmed, hosts made canonical;
/// token operations are refused.
pub open spec fn override_step(n: OverridesV, op: OperationV) -> Result<OverridesV, LayerErrorV> {
    let r = n.routing;
    let t = n.tombstones;
    match op {
        OperationV::UpsertIngressListener(item) => Ok(
            OverridesV {
                routing: RoutingDataV {
                    ingress_listeners: upsert_spec::<IngressListenerDef>(r.ingress_listeners, item),
                    ..r
                },
                tombstones: TombstonesV { ingress_ports: without(t.ingress_ports, item.port), ..t },
            },
        ),
        OperationV::DeleteIngressListener(p) => Ok(
            OverridesV {
                routing: RoutingDataV {
                    ingress_listeners: delete_spec::<IngressListenerDef>(r.ingress_listeners, p),
                    ..r
                },
                tombstones: TombstonesV { ingress_ports: insert_unique(t.ingress_ports, p), ..t },
            },
        ),
        OperationV::UpsertClientGroup(item) => if !id_ok(item.group_id) {
            Err(LayerErrorV::EmptyIdentifier(IdField::ClientGroupId))
        } else {
            let it = ClientGroupV { group_id: trim_uws(item.group_id), ..item };
            Ok(
                OverridesV {
                    routing: RoutingDataV {
                        client_groups: upsert_spec::<ClientGroupDef>(r.client_groups, it),
                        ..r
                    },
                    tombstones: TombstonesV {
                        client_groups: without(t.client_groups, it.group_id),
                        ..t
                    },
                },
            )
        },
        OperationV::DeleteClientGroup(k) => if !id_ok(k) {
            Err(LayerErrorV::EmptyIdentifier(IdField::ClientGroupId))
        } else {
            Ok(
                OverridesV {
                    routing: RoutingDataV {
                        client_groups: delete_spec::<ClientGroupDef>(r.client_groups, trim_uws(k)),
                        ..r
                    },
                    tombstones: TombstonesV {
                        client_groups: insert_unique(t.client_groups, trim_uws(k)),
                        ..t
                    },
                },
            )
        },
        OperationV::UpsertEgressUpstream(item) => if !id_ok(item.name) {
            Err(LayerErrorV::EmptyIdentifier(IdField::EgressUpstreamName))
        } else {
            let it = EgressUpstreamV { name: trim_uws(item.name), ..item };
            Ok(
                OverridesV {
                    routing: RoutingDataV {
                        egress_upstreams: upsert_spec::<EgressUpstreamDef>(r.egress_upstreams, it),
                        ..r
                    },
                    tombstones: TombstonesV {
                        egress_upstreams: without(t.egress_upstreams, it.name),
                        ..t
                    },
                },
            )
        },
        OperationV::DeleteEgressUpstream(k) => if !id_ok(k) {
            Err(LayerErrorV::EmptyIdentifier(IdField::EgressUpstreamName))
        } else {
            Ok(
                OverridesV {
                    routing: RoutingDataV {
                        egress_upstreams: delete_spec::<EgressUpstreamDef>(r.egress_upstreams, trim_uws(k)),
                        ..r
                    },
                    tombstones: TombstonesV {
                        egress_upstreams: insert_unique(t.egress_upstreams, trim_uws(k)),
                        ..t
                    },
                },
            )
        },
        OperationV::UpsertEgressVhostRule(item) => match canonical_host(item.match_host) {
            Err(e) => Err(LayerErrorV::InvalidHost(e)),
            Ok(h) => {
                let it = EgressVhostRuleV { match_host: h, ..item };
                Ok(
                    OverridesV {
                        routing: RoutingDataV {
                            egress_vhost_rules: upsert_spec::<EgressVhostRuleDef>(r.egress_vhost_rules, it),
                            ..r
                        },
                        tombstones: TombstonesV {
                            egress_vhost_rules: without(t.egress_vhost_rules, h),
                            ..t
                        },
                    },
                )
            },
        },
        OperationV::DeleteEgressVhostRule(k) => match canonical_host(k) {
            Err(e) => Err(LayerErrorV::InvalidHost(e)),
            Ok(h) => Ok(
                OverridesV {
                    routing: RoutingDataV {
                        egress_vhost_rules: delete_spec::<EgressVhostRuleDef>(r.egress_vhost_rules, h),
                        ..r
                    },
                    tombstones: TombstonesV {
                        egress_vhost_rules: insert_unique(t.egress_vhost_rules, h),
                        ..t
                    },
                },
            ),
        },
        OperationV::UpsertToken(_) => Err(LayerErrorV::TokenOperation),
        OperationV::DeleteToken(_) => Err(LayerErrorV::TokenOperation),
    }
}

/// The override layer after an operation, and the outcome: the layer is
/// normalized and checked first, the operation applied, and the result
/// normalized and checked again; a refusal leaves the layer as far as it
/// got.
pub open spec fn apply_override_spec(o: OverridesV, op: OperationV) -> (
    OverridesV,
    Result<(), LayerErrorV>,
) {
    if overrides_error(o) is Some {
        (o, Err(overrides_error(o)->Some_0))
    } else {
        let n = norm_overrides(o);
        match override_step(n, op) {
            Err(e) => (n, Err(e)),
            Ok(m) => if overrides_error(m) is Some {
                (m, Err(overrides_error(m)->Some_0))
            } else {
                (norm_overrides(m), Ok(()))
            },
        }
    }
}

fn remove_port(ps: &mut Vec<u16>, p: u16)
    ensures
        final(ps)@ == without(old(ps)@, p),
{
    let ghost before = ps@;
    let mut kept: Vec<u16> = Vec::new();
    let mut i: usize = 0;
    assert(without(before.take(0), p) =~= Seq::<u16>::empty()) by {
        reveal(Seq::filter);
    }
    while i < ps.len()
        invariant
            i <= before.len(),
            ps@ == before,
            kept@ == without(before.take(i as int), p),
        decreases before.len() - i,
    {
        assert(before.take(i + 1).drop_last() =~= before.take(i as int));
        assert(before.take(i + 1).last() == before[i as int]);
        proof {
            reveal(Seq::filter);
        }
        if ps[i] != p {
            kept.push(ps[i]);
        }
        i = i + 1;
    }
    assert(before.take(i as int) =~= before);
    *ps = kept;
}

fn insert_port(ps: &mut Vec<u16>, p: u16)
    ensures
        final(ps)@ == insert_unique(old(ps)@, p),
{
    if !contains_port(ps, p) {
        ps.push(p);
    }
}

fn remove_key(ks: &mut Vec<String>, k: &String)
    ensures
        seq_view(final(ks)@) == without(seq_view(old(ks)@), k@),
{
    let ghost before = seq_view(ks@);
    let ghost pred = |x: Seq<char>| x != k@;
    let mut kept: Vec<String> = Vec::new();
    let mut i: usize = 0;
    assert(before.take(0).filter(pred) =~= Seq::<Seq<char>>::empty()) by {
        reveal(Seq::filter);
    }
    while i < ks.len()
        invariant
            i <= before.len(),
            seq_view(ks@) == before,
            pred == (|x: Seq<char>| x != k@),
            seq_view(kept@) == before.take(i as int).filter(pred),
        decreases before.len() - i,
    {
        assert(before.take(i + 1).drop_last() =~= before.take(i as int));
        assert(before.take(i + 1).last() == before[i as int]);
        proof {
            reveal(Seq::filter);
        }
        if !string_eq(&ks[i], k) {
            let ghost b = seq_view(kept@);
            kept.push(ks[i].clone());
            assert(seq_view(kept@) =~= b.push(before[i as int]));
        }
        i = i + 1;
    }
    assert(before.take(i as int) =~= before);
    *ks = kept;
}

fn insert_key(ks: &mut Vec<String>, k: String)
    ensures
        seq_view(final(ks)@) == insert_unique(seq_view(old(ks)@), k@),
{
    if !contains_string(ks, &k) {
        let ghost b = seq_view(ks@);
        let ghost kv = k@;
        ks.push(k);
        assert(seq_view(ks@) =~= b.push(kv));
    }
}

/// Applies an admin operation to the override layer.
pub fn apply_override_operation(overrides: &mut SqliteOverrideLayer, operation: &ConfigOperation) -> (r:
    Result<(), LayerError>)
    ensures
        final(overrides)@ == apply_override_spec(old(overrides)@, operation@).0,
        match r {
            Ok(()) => apply_override_spec(old(overrides)@, operation@).1 is Ok,
            Err(e) => apply_override_spec(old(overrides)@, operation@).1 == Err::<(), LayerErrorV>(
                e@,
            ),
        },
{
    normalize_and_validate_overrides(overrides)?;
    let ghost n = overrides@;
    match operation {
        ConfigOperation::UpsertIngressListener(item) => {
            remove_port(&mut overrides.tombstones.ingress_ports, item.port);
            upsert_by_key(&mut overrides.routing.ingress_listeners, item.duplicate());
        },
        ConfigOperation::DeleteIngressListener { port } => {
            delete_by_key::<IngressListenerDef>(&mut overrides.routing.ingress_listeners, port);
            insert_port(&mut overrides.tombstones.ingress_ports, *port);
        },
        ConfigOperation::UpsertClientGroup(item) => {
            let id = normalized_identifier(&item.group_id, IdField::ClientGroupId)?;
            remove_key(&mut overrides.tombstones.client_groups, &id);
            let it = ClientGroupDef {
                group_id: id,
                config_version: item.config_version.clone(),
                upstreams: vec_duplicate(&item.upstreams),
            };
            upsert_by_key(&mut overrides.routing.client_groups, it);
        },
        ConfigOperation::DeleteClientGroup { group_id } => {
            let key = normalized_identifier(group_id, IdField::ClientGroupId)?;
            delete_by_key::<ClientGroupDef>(&mut overrides.routing.client_groups, &key);
            insert_key(&mut overrides.tombstones.client_groups, key);
        },
        ConfigOperation::UpsertEgressUpstream(item) => {
            let name = normalized_identifier(&item.name, IdField::EgressUpstreamName)?;
            remove_key(&mut overrides.tombstones.egress_upstreams, &name);
            let it = EgressUpstreamDef {
                name,
                lb_policy: item.lb_policy.clone(),
                servers: vec_duplicate(&item.servers),
            };
            upsert_by_key(&mut overrides.routing.egress_upstreams, it);
        },
        ConfigOperation::DeleteEgressUpstream { name } => {
            let key = normalized_identifier(name, IdField::EgressUpstreamName)?;
            delete_by_key::<EgressUpstreamDef>(&mut overrides.routing.egress_upstreams, &key);
            insert_key(&mut overrides.tombstones.egress_upstreams, key);
        },
        ConfigOperation::UpsertEgressVhostRule(item) => {
            let host = normalized_host(&item.match_host)?;
            remove_key(&mut overrides.tombstones.egress_vhost_rules, &host);
            let it = EgressVhostRuleDef {
                match_host: host,
                action_upstream: item.action_upstream.clone(),
            };
            upsert_by_key(&mut overrides.routing.egress_vhost_rules, it);
        },
        ConfigOperation::DeleteEgressVhostRule { match_host } => {
            let key = normalized_host(match_host)?;
            delete_by_key::<EgressVhostRuleDef>(&mut overrides.routing.egress_vhost_rules, &key);
            insert_key(&mut overrides.tombstones.egress_vhost_rules, key);
        },
        ConfigOperation::UpsertToken(_) => {
            return Err(LayerError::TokenOperation);
        },
        ConfigOperation::DeleteToken { .. } => {
            return Err(LayerError::TokenOperation);
        },
    }
    assert(overrides@ =~= override_step(n, operation@)->Ok_0);
    normalize_and_validate_overrides(overrides)
}

/// Whether `s` spells the literal `lit`.
pub(crate) fn str_is(s: &str, lit: &str) -> (r: bool)
    ensures
        r == (s@ == lit@),
{
    s.to_owned() == lit.to_owned()
}

/// Drops the override and the tombstone of one key, so that the base layer
/// decides it again; the key is read as the resource names it.
pub fn clear_override(overrides: &mut SqliteOverrideLayer, resource: &str, key: &str) -> (r: Result<
    (),
    LayerError,
>)
    ensures
        ({
            let o = old(overrides)@;
            let f = final(overrides)@;
            if resource@ == "ingress_listener"@ {
                if port_ok(key@) {
                    let p = char_digits_value(port_digits(key@)) as u16;
                    &&& r is Ok
                    &&& f.routing == (RoutingDataV {
                        ingress_listeners: delete_spec::<IngressListenerDef>(o.routing.ingress_listeners, p),
                        ..o.routing
                    })
                    &&& f.tombstones == (TombstonesV {
                        ingress_ports: without(o.tombstones.ingress_ports, p),
                        ..o.tombstones
                    })
                } else {
                    r matches Err(e) && e@ == LayerErrorV::InvalidIngressPort && f == o
                }
            } else if resource@ == "client_group"@ {
                if id_ok(key@) {
                    &&& r is Ok
                    &&& f.routing == (RoutingDataV {
                        client_groups: delete_spec::<ClientGroupDef>(o.routing.client_groups, trim_uws(key@)),
                        ..o.routing
                    })
                    &&& f.tombstones == (TombstonesV {
                        client_groups: without(o.tombstones.client_groups, trim_uws(key@)),
                        ..o.tombstones
                    })
                } else {
                    r matches Err(e) && e@ == LayerErrorV::EmptyIdentifier(IdField::ClientGroupId) && f == o
                }
            } else if resource@ == "egress_upstream"@ {
                if id_ok(key@) {
                    &&& r is Ok
                    &&& f.routing == (RoutingDataV {
                        egress_upstreams: delete_spec::<EgressUpstreamDef>(o.routing.egress_upstreams, trim_uws(key@)),
                        ..o.routing
                    })
                    &&& f.tombstones == (TombstonesV {
                        egress_upstreams: without(o.tombstones.egress_upstreams, trim_uws(key@)),
                        ..o.tombstones
                    })
                } else {
                    r matches Err(e) && e@ == LayerErrorV::EmptyIdentifier(IdField::EgressUpstreamName) && f == o
                }
            } else if resource@ == "egress_vhost_rule"@ {
                match canonical_host(key@) {
                    Ok(h) => {
                        &&& r is Ok
                        &&& f.routing == (RoutingDataV {
                            egress_vhost_rules: delete_spec::<EgressVhostRuleDef>(o.routing.egress_vhost_rules, h),
                            ..o.routing
                        })
                        &&& f.tombstones == (TombstonesV {
                            egress_vhost_rules: without(o.tombstones.egress_vhost_rules, h),
                            ..o.tombstones
                        })
                    },
                    Err(e0) => r matches Err(e) && e@ == LayerErrorV::InvalidHost(e0) && f == o,
                }
            } else {
                r matches Err(e) && e@ == LayerErrorV::UnknownResource(resource@) && f == o
            }
        }),
{
    if str_is(resource, "ingress_listener") {
        let port = match parse_port(key) {
            Some(p) => p,
            None => return Err(LayerError::InvalidIngressPort),
        };
        delete_by_key::<IngressListenerDef>(&mut overrides.routing.ingress_listeners, &port);
        remove_port(&mut overrides.tombstones.ingress_ports, port);
        Ok(())
    } else if str_is(resource, "client_group") {
        let k = normalized_identifier(&key.to_owned(), IdField::ClientGroupId)?;
        delete_by_key::<ClientGroupDef>(&mut overrides.routing.client_groups, &k);
        remove_key(&mut overrides.tombstones.client_groups, &k);
        Ok(())
    } else if str_is(resource, "egress_upstream") {
        let k = normalized_identifier(&key.to_owned(), IdField::EgressUpstreamName)?;
        delete_by_key::<EgressUpstreamDef>(&mut overrides.routing.egress_upstreams, &k);
        remove_key(&mut overrides.tombstones.egress_upstreams, &k);
        Ok(())
    } else if str_is(resource, "egress_vhost_rule") {
        let k = normalized_host(&key.to_owned())?;
        delete_by_key::<EgressVhostRuleDef>(&mut overrides.routing.egress_vhost_rules, &k);
        remove_key(&mut overrides.tombstones.egress_vhost_rules, &k);
        Ok(())
    } else {
        Err(LayerError::UnknownResource(resource.to_owned()))
    }
}

proof fn lemma_without_keys<T: Keyed>(items: Seq<T::V>, ks: Seq<<T::Key as View>::V>)
    ensures
        forall|x: T::V| #[trigger]
            without_keys::<T>(items, ks).contains(x) <==> (items.contains(x) && !ks.contains(T::key_of(x))),
{
    let pred = |v: T::V| !ks.contains(T::key_of(v));
    let w = items.filter(pred);
    assert forall|x: T::V| #[trigger] w.contains(x) <==> (items.contains(x) && !ks.contains(T::key_of(x))) by {
        if w.contains(x) {
            items.lemma_filter_contains_rev(pred, x);
            let i = choose|i: int| 0 <= i < w.len() && w[i] == x;
            items.lemma_filter_pred(pred, i);
        }
        if items.contains(x) && !ks.contains(T::key_of(x)) {
            let i = choose|i: int| 0 <= i < items.len() && items[i] == x;
            items.lemma_filter_contains(pred, i);
        }
    }
}

proof fn lemma_upsert_elems<T: Keyed>(u: Seq<T::V>, v: T::V)
    ensures
        upsert_spec::<T>(u, v).contains(v),
        forall|x: T::V| #[trigger]
            upsert_spec::<T>(u, v).contains(x) ==> u.contains(x) || x == v,
        forall|x: T::V|
            u.contains(x) && T::key_of(x) != T::key_of(v) ==> #[trigger] upsert_spec::<T>(
                u,
                v,
            ).contains(x),
{
    let r = upsert_spec::<T>(u, v);
    let i = key_index::<T>(u, T::key_of(v));
    lemma_key_index_props::<T>(u, T::key_of(v));
    if i >= 0 {
        assert(r[i] == v);
        assert forall|x: T::V| #[trigger] r.contains(x) implies u.contains(x) || x == v by {
            let j = choose|j: int| 0 <= j < r.len() && r[j] == x;
            if j != i {
                assert(u[j] == x);
            }
        }
        assert forall|x: T::V| u.contains(x) && T::key_of(x) != T::key_of(v) implies #[trigger] r.contains(
            x,
        ) by {
            let j = choose|j: int| 0 <= j < u.len() && u[j] == x;
            assert(j != i);
            assert(r[j] == x);
        }
    } else {
        assert(r[u.len() as int] == v);
        assert forall|x: T::V| #[trigger] r.contains(x) implies u.contains(x) || x == v by {
            let j = choose|j: int| 0 <= j < r.len() && r[j] == x;
            if j < u.len() {
                assert(u[j] == x);
            }
        }
        assert forall|x: T::V| u.contains(x) && T::key_of(x) != T::key_of(v) implies #[trigger] r.contains(
            x,
        ) by {
            let j = choose|j: int| 0 <= j < u.len() && u[j] == x;
            assert(r[j] == x);
        }
    }
}

proof fn lemma_upsert_all_elems<T: Keyed>(items: Seq<T::V>, news: Seq<T::V>)
    ensures
        forall|x: T::V| #[trigger]
            upsert_all::<T>(items, news).contains(x) ==> items.contains(x) || news.contains(x),
        keys_unique::<T>(news) ==> forall|j: int|
            0 <= j < news.len() ==> #[trigger] upsert_all::<T>(items, news).contains(news[j]),
        forall|x: T::V|
            items.contains(x) && !has_key::<T>(news, T::key_of(x)) ==> #[trigger] upsert_all::<T>(
                items,
                news,
            ).contains(x),
    decreases news.len(),
{
    if news.len() > 0 {
        let d = news.drop_last();
        let u = upsert_all::<T>(items, d);
        let v = news.last();
        lemma_upsert_all_elems::<T>(items, d);
        lemma_upsert_elems::<T>(u, v);
        let r = upsert_all::<T>(items, news);
        assert(r == upsert_spec::<T>(u, v));
        assert forall|x: T::V| #[trigger] r.contains(x) implies items.contains(x) || news.contains(x) by {
            if u.contains(x) {
                if d.contains(x) {
                    let j = choose|j: int| 0 <= j < d.len() && d[j] == x;
                    assert(news[j] == x);
                }
            } else {
                assert(news[news.len() - 1] == x);
            }
        }
        if keys_unique::<T>(news) {
            assert forall|a: int, b: int| 0 <= a < b < d.len() implies T::key_of(#[trigger] d[a])
                != T::key_of(#[trigger] d[b]) by {
                assert(T::key_of(news[a]) != T::key_of(news[b]));
            }
            assert forall|j: int| 0 <= j < news.len() implies #[trigger] r.contains(news[j]) by {
                if j < news.len() - 1 {
                    assert(d[j] == news[j]);
                    assert(u.contains(d[j]));
                    assert(T::key_of(news[j]) != T::key_of(news[news.len() - 1]));
                }
            }
        }
        assert forall|x: T::V| items.contains(x) && !has_key::<T>(news, T::key_of(x)) implies #[trigger] r.contains(
            x,
        ) by {
            if has_key::<T>(d, T::key_of(x)) {
                let j = choose|j: int| 0 <= j < d.len() && T::key_of(d[j]) == T::key_of(x);
                assert(T::key_of(news[j]) == T::key_of(x));
            }
            if T::key_of(x) == T::key_of(v) {
                assert(T::key_of(news[news.len() - 1]) == T::key_of(x));
            }
            assert(u.contains(x));
        }
    }
}

proof fn lemma_norm_listeners_ports(ls: Seq<IngressListenerV>)
    ensures
        ls.map_values(|l: IngressListenerV| norm_listener(l)).len() == ls.len(),
        forall|i: int|
            0 <= i < ls.len() ==> ls.map_values(|l: IngressListenerV| norm_listener(l))[i].port == (
            #[trigger] ls[i]).port,
        keys_unique::<IngressListenerDef>(ls) ==> keys_unique::<IngressListenerDef>(
            ls.map_values(|l: IngressListenerV| norm_listener(l)),
        ),
{
    let n = ls.map_values(|l: IngressListenerV| norm_listener(l));
    if keys_unique::<IngressListenerDef>(ls) {
        assert forall|a: int, b: int| 0 <= a < b < n.len() implies IngressListenerDef::key_of(
            #[trigger] n[a],
        ) != IngressListenerDef::key_of(#[trigger] n[b]) by {
            assert(IngressListenerDef::key_of(ls[a]) != IngressListenerDef::key_of(ls[b]));
        }
    }
}

/// A merged routing holds no ingress listener on a port the override layer
/// deletes.
pub proof fn law_tombstone_removes_listener(base: RoutingDataV, o: OverridesV, port: u16)
    requires
        merge_spec(base, o) is Ok,
        o.tombstones.ingress_ports.contains(port),
    ensures
        forall|i: int|
            0 <= i < merge_spec(base, o)->Ok_0.ingress_listeners.len() ==> (
            #[trigger] merge_spec(base, o)->Ok_0.ingress_listeners[i]).port != port,
{
    let nb = norm_routing(base);
    let no = norm_overrides(o);
    let c = combine(nb, no);
    let m = norm_routing(c);
    let w = without_keys::<IngressListenerDef>(nb.ingress_listeners, no.tombstones.ingress_ports);
    lemma_without_keys::<IngressListenerDef>(nb.ingress_listeners, no.tombstones.ingress_ports);
    lemma_upsert_all_elems::<IngressListenerDef>(w, no.routing.ingress_listeners);
    lemma_norm_listeners_ports(c.ingress_listeners);
    assert(conflict_error(no) is None);
    assert forall|i: int| 0 <= i < m.ingress_listeners.len() implies (
    #[trigger] m.ingress_listeners[i]).port != port by {
        let x = c.ingress_listeners[i];
        assert(c.ingress_listeners.contains(x));
        if w.contains(x) {
            assert(!no.tombstones.ingress_ports.contains(x.port));
        } else {
            let j = choose|j: int|
                0 <= j < no.routing.ingress_listeners.len() && no.routing.ingress_listeners[j] == x;
            assert(!no.tombstones.ingress_ports.contains(
                (#[trigger] no.routing.ingress_listeners[j]).port,
            ));
        }
    }
}

/// A merged routing holds no egress upstream whose name the override layer
/// deletes (its tombstones read as normalized).
pub proof fn law_tombstone_removes_upstream(base: RoutingDataV, o: OverridesV, name: Seq<char>)
    requires
        merge_spec(base, o) is Ok,
        norm_overrides(o).tombstones.egress_upstreams.contains(name),
    ensures
        forall|i: int|
            0 <= i < merge_spec(base, o)->Ok_0.egress_upstreams.len() ==> (
            #[trigger] merge_spec(base, o)->Ok_0.egress_upstreams[i]).name != name,
{
    let nb = norm_routing(base);
    let no = norm_overrides(o);
    let t = no.tombstones.egress_upstreams;
    let c = combine(nb, no);
    let m = norm_routing(c);
    let w = without_keys::<EgressUpstreamDef>(nb.egress_upstreams, t);
    lemma_without_keys::<EgressUpstreamDef>(nb.egress_upstreams, t);
    lemma_upsert_all_elems::<EgressUpstreamDef>(w, no.routing.egress_upstreams);
    assert(conflict_error(no) is None);
    assert forall|i: int| 0 <= i < m.egress_upstreams.len() implies (
    #[trigger] m.egress_upstreams[i]).name != name by {
        let x = c.egress_upstreams[i];
        assert(c.egress_upstreams.contains(x));
        assert(m.egress_upstreams[i].name == trim_uws(x.name));
        if w.contains(x) {
            assert(!t.contains(x.name));
            let j = choose|j: int| 0 <= j < nb.egress_upstreams.len() && nb.egress_upstreams[j] == x;
            lemma_trim_idempotent(base.egress_upstreams[j].name);
        } else {
            let j = choose|j: int|
                0 <= j < no.routing.egress_upstreams.len() && no.routing.egress_upstreams[j] == x;
            assert(!t.contains((#[trigger] no.routing.egress_upstreams[j]).name));
            lemma_trim_idempotent(o.routing.egress_upstreams[j].name);
        }
    }
}

/// A merged routing holds no client group whose id the override layer
/// deletes (its tombstones read as normalized).
pub proof fn law_tombstone_removes_group(base: RoutingDataV, o: OverridesV, id: Seq<char>)
    requires
        merge_spec(base, o) is Ok,
        norm_overrides(o).tombstones.client_groups.contains(id),
    ensures
        forall|i: int|
            0 <= i < merge_spec(base, o)->Ok_0.client_groups.len() ==> (
            #[trigger] merge_spec(base, o)->Ok_0.client_groups[i]).group_id != id,
{
    let nb = norm_routing(base);
    let no = norm_overrides(o);
    let t = no.tombstones.client_groups;
    let c = combine(nb, no);
    let m = norm_routing(c);
    let w = without_keys::<ClientGroupDef>(nb.client_groups, t);
    lemma_without_keys::<ClientGroupDef>(nb.client_groups, t);
    lemma_upsert_all_elems::<ClientGroupDef>(w, no.routing.client_groups);
    assert(conflict_error(no) is None);
    assert forall|i: int| 0 <= i < m.client_groups.len() implies (
    #[trigger] m.client_groups[i]).group_id != id by {
        let x = c.client_groups[i];
        assert(c.client_groups.contains(x));
        assert(m.client_groups[i].group_id == trim_uws(x.group_id));
        if w.contains(x) {
            assert(!t.contains(x.group_id));
            let j = choose|j: int| 0 <= j < nb.client_groups.len() && nb.client_groups[j] == x;
            lemma_trim_idempotent(base.client_groups[j].group_id);
        } else {
            let j = choose|j: int|
                0 <= j < no.routing.client_groups.len() && no.routing.client_groups[j] == x;
            assert(!t.contains((#[trigger] no.routing.client_groups[j]).group_id));
            lemma_trim_idempotent(o.routing.client_groups[j].group_id);
        }
    }
}

/// Every egress vhost rule of a merged routing is, normalized again, a
/// rule of the normalized base whose host no tombstone of the override
/// layer names, or a rule of the normalized override layer: a deleted
/// host's base rule never survives the merge.
pub proof fn law_merged_vhost_rules_come_from_live_rules(base: RoutingDataV, o: OverridesV)
    requires
        merge_spec(base, o) is Ok,
    ensures
        forall|i: int|
            0 <= i < merge_spec(base, o)->Ok_0.egress_vhost_rules.len() ==> exists|x: EgressVhostRuleV|
                ((norm_routing(base).egress_vhost_rules.contains(x) && !norm_overrides(
                    o,
                ).tombstones.egress_vhost_rules.contains(x.match_host)) || norm_overrides(
                    o,
                ).routing.egress_vhost_rules.contains(x)) && #[trigger] merge_spec(
                    base,
                    o,
                )->Ok_0.egress_vhost_rules[i] == norm_egress_rule(x),
{
    let nb = norm_routing(base);
    let no = norm_overrides(o);
    let t = no.tombstones.egress_vhost_rules;
    let c = combine(nb, no);
    let m = norm_routing(c);
    let w = without_keys::<EgressVhostRuleDef>(nb.egress_vhost_rules, t);
    lemma_without_keys::<EgressVhostRuleDef>(nb.egress_vhost_rules, t);
    lemma_upsert_all_elems::<EgressVhostRuleDef>(w, no.routing.egress_vhost_rules);
    assert forall|i: int| 0 <= i < m.egress_vhost_rules.len() implies exists|x: EgressVhostRuleV|
        ((nb.egress_vhost_rules.contains(x) && !t.contains(x.match_host))
            || no.routing.egress_vhost_rules.contains(x)) && #[trigger] m.egress_vhost_rules[i]
            == norm_egress_rule(x) by {
        let x = c.egress_vhost_rules[i];
        assert(c.egress_vhost_rules.contains(x));
        assert(m.egress_vhost_rules[i] == norm_egress_rule(x));
    }
}

/// A merged routing holds every ingress listener of the override layer, as
/// normalized again with the result.
pub proof fn law_override_listener_wins(base: RoutingDataV, o: OverridesV, j: int)
    requires
        merge_spec(base, o) is Ok,
        0 <= j < norm_overrides(o).routing.ingress_listeners.len(),
    ensures
        merge_spec(base, o)->Ok_0.ingress_listeners.contains(
            norm_listener(norm_overrides(o).routing.ingress_listeners[j]),
        ),
{
    let nb = norm_routing(base);
    let no = norm_overrides(o);
    let c = combine(nb, no);
    let m = norm_routing(c);
    let w = without_keys::<IngressListenerDef>(nb.ingress_listeners, no.tombstones.ingress_ports);
    lemma_norm_listeners_ports(o.routing.ingress_listeners);
    lemma_upsert_all_elems::<IngressListenerDef>(w, no.routing.ingress_listeners);
    let x = no.routing.ingress_listeners[j];
    assert(c.ingress_listeners.contains(x));
    let i = choose|i: int| 0 <= i < c.ingress_listeners.len() && c.ingress_listeners[i] == x;
    assert(m.ingress_listeners[i] == norm_listener(x));
}

/// A merged routing holds every client group, egress upstream and egress
/// vhost rule of the override layer, as normalized again with the result.
pub proof fn law_override_records_win(base: RoutingDataV, o: OverridesV)
    requires
        merge_spec(base, o) is Ok,
    ensures
        forall|j: int|
            0 <= j < norm_overrides(o).routing.client_groups.len() ==> merge_spec(
                base,
                o,
            )->Ok_0.client_groups.contains(
                norm_group(#[trigger] norm_overrides(o).routing.client_groups[j]),
            ),
        forall|j: int|
            0 <= j < norm_overrides(o).routing.egress_upstreams.len() ==> merge_spec(
                base,
                o,
            )->Ok_0.egress_upstreams.contains(
                norm_egress_upstream(#[trigger] norm_overrides(o).routing.egress_upstreams[j]),
            ),
        forall|j: int|
            0 <= j < norm_overrides(o).routing.egress_vhost_rules.len() ==> merge_spec(
                base,
                o,
            )->Ok_0.egress_vhost_rules.contains(
                norm_egress_rule(#[trigger] norm_overrides(o).routing.egress_vhost_rules[j]),
            ),
{
    let nb = norm_routing(base);
    let no = norm_overrides(o);
    let r = o.routing;
    let c = combine(nb, no);
    let m = norm_routing(c);
    assert(routing_error(r) is None);
    let gk = r.client_groups.map_values(|g: ClientGroupV| trim_uws(g.group_id));
    assert(distinct(gk));
    assert forall|a: int, b: int| 0 <= a < b < no.routing.client_groups.len() implies ClientGroupDef::key_of(
        #[trigger] no.routing.client_groups[a],
    ) != ClientGroupDef::key_of(#[trigger] no.routing.client_groups[b]) by {
        assert(gk[a] != gk[b]);
    }
    let uk = r.egress_upstreams.map_values(|u: EgressUpstreamV| trim_uws(u.name));
    assert(distinct(uk));
    assert forall|a: int, b: int| 0 <= a < b < no.routing.egress_upstreams.len() implies EgressUpstreamDef::key_of(
        #[trigger] no.routing.egress_upstreams[a],
    ) != EgressUpstreamDef::key_of(#[trigger] no.routing.egress_upstreams[b]) by {
        assert(uk[a] != uk[b]);
    }
    let rk = r.egress_vhost_rules.map_values(|x: EgressVhostRuleV| host_key(x.match_host));
    assert(distinct(rk));
    assert forall|a: int, b: int| 0 <= a < b < no.routing.egress_vhost_rules.len() implies EgressVhostRuleDef::key_of(
        #[trigger] no.routing.egress_vhost_rules[a],
    ) != EgressVhostRuleDef::key_of(#[trigger] no.routing.egress_vhost_rules[b]) by {
        assert(rk[a] != rk[b]);
    }
    let wg = without_keys::<ClientGroupDef>(nb.client_groups, no.tombstones.client_groups);
    let wu = without_keys::<EgressUpstreamDef>(nb.egress_upstreams, no.tombstones.egress_upstreams);
    let wr = without_keys::<EgressVhostRuleDef>(nb.egress_vhost_rules, no.tombstones.egress_vhost_rules);
    lemma_upsert_all_elems::<ClientGroupDef>(wg, no.routing.client_groups);
    lemma_upsert_all_elems::<EgressUpstreamDef>(wu, no.routing.egress_upstreams);
    lemma_upsert_all_elems::<EgressVhostRuleDef>(wr, no.routing.egress_vhost_rules);
    assert forall|j: int| 0 <= j < no.routing.client_groups.len() implies m.client_groups.contains(
        norm_group(#[trigger] no.routing.client_groups[j]),
    ) by {
        let x = no.routing.client_groups[j];
        assert(c.client_groups.contains(x));
        let i = choose|i: int| 0 <= i < c.client_groups.len() && c.client_groups[i] == x;
        assert(m.client_groups[i] == norm_group(x));
    }
    assert forall|j: int| 0 <= j < no.routing.egress_upstreams.len() implies m.egress_upstreams.contains(
        norm_egress_upstream(#[trigger] no.routing.egress_upstreams[j]),
    ) by {
        let x = no.routing.egress_upstreams[j];
        assert(c.egress_upstreams.contains(x));
        let i = choose|i: int| 0 <= i < c.egress_upstreams.len() && c.egress_upstreams[i] == x;
        assert(m.egress_upstreams[i] == norm_egress_upstream(x));
    }
    assert forall|j: int| 0 <= j < no.routing.egress_vhost_rules.len() implies m.egress_vhost_rules.contains(
        norm_egress_rule(#[trigger] no.routing.egress_vhost_rules[j]),
    ) by {
        let x = no.routing.egress_vhost_rules[j];
        assert(c.egress_vhost_rules.contains(x));
        let i = choose|i: int| 0 <= i < c.egress_vhost_rules.len() && c.egress_vhost_rules[i] == x;
        assert(m.egress_vhost_rules[i] == norm_egress_rule(x));
    }
}

/// A port that the override layer neither overrides nor deletes is decided
/// by the base layer: the merged routing holds, on that port, exactly the
/// base layer's listeners, normalized again with the result.
pub proof fn law_base_decides_untouched_listener(base: RoutingDataV, o: OverridesV, port: u16)
    requires
        merge_spec(base, o) is Ok,
        !o.tombstones.ingress_ports.contains(port),
        !has_key::<IngressListenerDef>(norm_overrides(o).routing.ingress_listeners, port),
    ensures
        forall|i: int|
            0 <= i < merge_spec(base, o)->Ok_0.ingress_listeners.len() && (
            #[trigger] merge_spec(base, o)->Ok_0.ingress_listeners[i]).port == port ==> exists|k: int|
                0 <= k < norm_routing(base).ingress_listeners.len() && merge_spec(
                    base,
                    o,
                )->Ok_0.ingress_listeners[i] == norm_listener(
                    #[trigger] norm_routing(base).ingress_listeners[k],
                ),
        forall|k: int|
            0 <= k < norm_routing(base).ingress_listeners.len() && (
            #[trigger] norm_routing(base).ingress_listeners[k]).port == port
                ==> merge_spec(base, o)->Ok_0.ingress_listeners.contains(
                norm_listener(norm_routing(base).ingress_listeners[k]),
            ),
{
    let nb = norm_routing(base);
    let no = norm_overrides(o);
    let c = combine(nb, no);
    let m = norm_routing(c);
    let ts = no.tombstones.ingress_ports;
    let w = without_keys::<IngressListenerDef>(nb.ingress_listeners, ts);
    lemma_without_keys::<IngressListenerDef>(nb.ingress_listeners, ts);
    lemma_upsert_all_elems::<IngressListenerDef>(w, no.routing.ingress_listeners);
    lemma_norm_listeners_ports(c.ingress_listeners);
    assert forall|i: int|
        0 <= i < m.ingress_listeners.len() && (#[trigger] m.ingress_listeners[i]).port == port implies exists|k: int|
        0 <= k < nb.ingress_listeners.len() && m.ingress_listeners[i] == norm_listener(
            #[trigger] nb.ingress_listeners[k],
        ) by {
        let x = c.ingress_listeners[i];
        assert(c.ingress_listeners.contains(x));
        if w.contains(x) {
            assert(nb.ingress_listeners.contains(x));
            let k = choose|k: int| 0 <= k < nb.ingress_listeners.len() && nb.ingress_listeners[k] == x;
            assert(m.ingress_listeners[i] == norm_listener(nb.ingress_listeners[k]));
        } else {
            let j = choose|j: int|
                0 <= j < no.routing.ingress_listeners.len() && no.routing.ingress_listeners[j] == x;
            assert(IngressListenerDef::key_of(no.routing.ingress_listeners[j]) == port);
        }
    }
    assert forall|k: int|
        0 <= k < nb.ingress_listeners.len() && (#[trigger] nb.ingress_listeners[k]).port == port implies m.ingress_listeners.contains(
        norm_listener(nb.ingress_listeners[k]),
    ) by {
        let x = nb.ingress_listeners[k];
        assert(nb.ingress_listeners.contains(x));
        assert(w.contains(x));
        assert(c.ingress_listeners.contains(x));
        let i = choose|i: int| 0 <= i < c.ingress_listeners.len() && c.ingress_listeners[i] == x;
        assert(m.ingress_listeners[i] == norm_listener(x));
    }
}

/// After `clear_override` for an ingress port, the override layer neither
/// overrides nor deletes that port, so the base layer decides it again.
pub proof fn law_clear_hands_port_back_to_base(o: OverridesV, port: u16)
    ensures
        ({
            let c = OverridesV {
                routing: RoutingDataV {
                    ingress_listeners: delete_spec::<IngressListenerDef>(o.routing.ingress_listeners, port),
                    ..o.routing
                },
                tombstones: TombstonesV {
                    ingress_ports: without(o.tombstones.ingress_ports, port),
                    ..o.tombstones
                },
            };
            &&& !c.tombstones.ingress_ports.contains(port)
            &&& !has_key::<IngressListenerDef>(norm_overrides(c).routing.ingress_listeners, port)
        }),
{
    let ts = o.tombstones.ingress_ports;
    let pred_t = |x: u16| x != port;
    if ts.filter(pred_t).contains(port) {
        let i = choose|i: int| 0 <= i < ts.filter(pred_t).len() && ts.filter(pred_t)[i] == port;
        ts.lemma_filter_pred(pred_t, i);
    }
    let ls = o.routing.ingress_listeners;
    let pred_l = |v: IngressListenerV| IngressListenerDef::key_of(v) != port;
    let d = ls.filter(pred_l);
    lemma_norm_listeners_ports(d);
    let n = d.map_values(|l: IngressListenerV| norm_listener(l));
    if has_key::<IngressListenerDef>(n, port) {
        let i = choose|i: int| 0 <= i < n.len() && IngressListenerDef::key_of(n[i]) == port;
        ls.lemma_filter_pred(pred_l, i);
        assert(n[i].port == d[i].port);
    }
}

proof fn lemma_delete_absent<T: Keyed>(items: Seq<T::V>, k: <T::Key as View>::V)
    requires
        !has_key::<T>(items, k),
    ensures
        delete_spec::<T>(items, k) == items,
    decreases items.len(),
{
    reveal(Seq::filter);
    if items.len() > 0 {
        let d = items.drop_last();
        assert(!has_key::<T>(d, k)) by {
            if has_key::<T>(d, k) {
                let i = choose|i: int| 0 <= i < d.len() && T::key_of(d[i]) == k;
                assert(T::key_of(items[i]) == k);
            }
        }
        lemma_delete_absent::<T>(d, k);
        assert(T::key_of(items[items.len() - 1]) != k);
        assert(d.push(items.last()) =~= items);
    }
}

proof fn lemma_delete_after_push<T: Keyed>(items: Seq<T::V>, x: T::V, k: <T::Key as View>::V)
    requires
        T::key_of(x) == k,
    ensures
        delete_spec::<T>(items.push(x), k) == delete_spec::<T>(items, k),
{
    reveal(Seq::filter);
    assert(items.push(x).drop_last() =~= items);
}

proof fn lemma_without_absent<K>(items: Seq<K>, item: K)
    requires
        !items.contains(item),
    ensures
        without(items, item) == items,
    decreases items.len(),
{
    reveal(Seq::filter);
    if items.len() > 0 {
        let d = items.drop_last();
        assert(!d.contains(item)) by {
            if d.contains(item) {
                let i = choose|i: int| 0 <= i < d.len() && d[i] == item;
                assert(items[i] == item);
            }
        }
        lemma_without_absent(d, item);
        assert(items[items.len() - 1] != item);
        assert(d.push(items.last()) =~= items);
    }
}

proof fn lemma_without_after_push<K>(items: Seq<K>, item: K)
    ensures
        without(items.push(item), item) == without(items, item),
{
    reveal(Seq::filter);
    assert(items.push(item).drop_last() =~= items);
}

/// Overriding or deleting an ingress port that the override layer did not
/// touch, and then clearing the override of that port, gives back the
/// override layer as it was.
pub proof fn law_clear_restores_listener_override(o: OverridesV, op: OperationV, port: u16)
    requires
        overrides_error(o) is None,
        norm_overrides(o) == o,
        !has_key::<IngressListenerDef>(o.routing.ingress_listeners, port),
        !o.tombstones.ingress_ports.contains(port),
        op == OperationV::DeleteIngressListener(port) || (op matches OperationV::UpsertIngressListener(
            l,
        ) && l.port == port),
        apply_override_spec(o, op).1 is Ok,
    ensures
        ({
            let a = apply_override_spec(o, op).0;
            OverridesV {
                routing: RoutingDataV {
                    ingress_listeners: delete_spec::<IngressListenerDef>(a.routing.ingress_listeners, port),
                    ..a.routing
                },
                tombstones: TombstonesV {
                    ingress_ports: without(a.tombstones.ingress_ports, port),
                    ..a.tombstones
                },
            } == o
        }),
{
    let ls = o.routing.ingress_listeners;
    let ps = o.tombstones.ingress_ports;
    lemma_delete_absent::<IngressListenerDef>(ls, port);
    lemma_without_absent(ps, port);
    assert(ls.map_values(|l: IngressListenerV| norm_listener(l)) == ls);
    let m = override_step(o, op)->Ok_0;
    let a = apply_override_spec(o, op).0;
    assert(a == norm_overrides(m));
    match op {
        OperationV::DeleteIngressListener(q) => {
            assert(q == port);
            assert(m.routing.ingress_listeners == ls);
            assert(m.tombstones.ingress_ports == ps.push(port));
            lemma_without_after_push(ps, port);
            assert(a.routing.ingress_listeners == ls);
            assert(a.tombstones.ingress_ports == ps.push(port));
        },
        OperationV::UpsertIngressListener(l) => {
            lemma_key_index_props::<IngressListenerDef>(ls, port);
            assert(m.routing.ingress_listeners == ls.push(l));
            assert(m.tombstones.ingress_ports == ps);
            let nl = norm_listener(l);
            assert(ls.push(l).map_values(|x: IngressListenerV| norm_listener(x)) =~= ls.map_values(
                |x: IngressListenerV| norm_listener(x),
            ).push(nl));
            assert(a.routing.ingress_listeners == ls.push(nl));
            lemma_delete_after_push::<IngressListenerDef>(ls, nl, port);
        },
        _ => {},
    }
}

} // verus!

//! The consistency rules a configuration snapshot must follow before it is
//! published: distinct non-blank identifiers, and references that resolve.

use vstd::prelude::*;
use crate::model::{
    seq_view, string_eq, ClientGroupDef, ClientGroupV, ClientUpstreamDef, ClientUpstreamV,
    EgressUpstreamDef, EgressUpstreamV, EgressVhostRuleDef, EgressVhostRuleV, IngressListenerDef,
    IngressListenerV, IngressListenerModeDef, IngressModeV, IngressVhostRuleDef, IngressVhostRuleV,
    TokenCacheEntryDef, TokenCacheEntryV, UpstreamServerDef,
};
use crate::collection::{has_key, keys_unique, keys_are_unique};
use crate::model::Keyed;
use crate::ctld::{ConfigSnapshot, SnapshotV};
use crate::text::{
    is_unicode_whitespace, is_whitespace_char, chars_of, decimal, push_str_chars, push_decimal,
    string_from_chars,
};

verus! {

/// Why a snapshot breaks the consistency rules.
#[derive(Debug, Clone, Copy, PartialEq, Eq, Structural)]
pub enum SnapshotError {
    DuplicateOrEmptyClientGroup,
    DuplicateIngressPort(u16),
    InvalidIngressVhostRule,
    UnknownListenerGroup,
    InvalidClientUpstreamNames,
    EmptyClientServerAddress,
    InvalidEgressUpstreams,
    InvalidEgressVhostRule,
    InvalidTokenCacheEntries,
}

/// The message each error carries.
pub open spec fn snapshot_error_message(e: SnapshotError) -> Seq<char> {
    match e {
        SnapshotError::DuplicateOrEmptyClientGroup =>
            "snapshot contains duplicate or empty client group ids"@,
        SnapshotError::DuplicateIngressPort(p) => "snapshot contains duplicate ingress listener port "@
            + decimal(p as nat),
        SnapshotError::InvalidIngressVhostRule => "snapshot contains invalid ingress vhost rule"@,
        SnapshotError::UnknownListenerGroup =>
            "snapshot ingress listener references unknown client group"@,
        SnapshotError::InvalidClientUpstreamNames =>
            "snapshot contains duplicate or empty client upstream names"@,
        SnapshotError::EmptyClientServerAddress =>
            "snapshot contains an empty client upstream server address"@,
        SnapshotError::InvalidEgressUpstreams => "snapshot contains invalid egress upstreams"@,
        SnapshotError::InvalidEgressVhostRule => "snapshot contains invalid egress vhost rule"@,
        SnapshotError::InvalidTokenCacheEntries => "snapshot contains invalid token cache entries"@,
    }
}

impl SnapshotError {
    /// The message the error carries.
    pub fn message(&self) -> (r: String)
        ensures
            r@ == snapshot_error_message(*self),
    {
        match self {
            SnapshotError::DuplicateOrEmptyClientGroup => {
                "snapshot contains duplicate or empty client group ids".to_owned()
            },
            SnapshotError::DuplicateIngressPort(p) => {
                let mut out: Vec<char> = Vec::new();
                push_str_chars(&mut out, "snapshot contains duplicate ingress listener port ");
                push_decimal(&mut out, *p as u64);
                string_from_chars(out.as_slice())
            },
            SnapshotError::InvalidIngressVhostRule => {
                "snapshot contains invalid ingress vhost rule".to_owned()
            },
            SnapshotError::UnknownListenerGroup => {
                "snapshot ingress listener references unknown client group".to_owned()
            },
            SnapshotError::InvalidClientUpstreamNames => {
                "snapshot contains duplicate or empty client upstream names".to_owned()
            },
            SnapshotError::EmptyClientServerAddress => {
                "snapshot contains an empty client upstream server address".to_owned()
            },
            SnapshotError::InvalidEgressUpstreams => {
                "snapshot contains invalid egress upstreams".to_owned()
            },
            SnapshotError::InvalidEgressVhostRule => {
                "snapshot contains invalid egress vhost rule".to_owned()
            },
            SnapshotError::InvalidTokenCacheEntries => {
                "snapshot contains invalid token cache entries".to_owned()
            },
        }
    }
}

/// `s` is empty or made of Unicode whitespace only (`str::trim` leaves
/// nothing of it).
pub open spec fn blank(s: Seq<char>) -> bool {
    forall|i: int| 0 <= i < s.len() ==> is_unicode_whitespace(#[trigger] s[i])
}

/// Some client group has the id `id`.
pub open spec fn group_known(groups: Seq<ClientGroupV>, id: Seq<char>) -> bool {
    exists|i: int| 0 <= i < groups.len() && (#[trigger] groups[i]).group_id == id
}

/// Client group ids repeat, or one is blank.
pub open spec fn group_ids_bad(groups: Seq<ClientGroupV>) -> bool {
    ||| !keys_unique::<ClientGroupDef>(groups)
    ||| exists|i: int| 0 <= i < groups.len() && blank((#[trigger] groups[i]).group_id)
}

/// Rule `k` of a listener names an unknown group, has a blank host, or
/// repeats the host of an earlier rule.
pub open spec fn vhost_rule_bad(rules: Seq<IngressVhostRuleV>, k: int, groups: Seq<ClientGroupV>) -> bool {
    ||| !group_known(groups, rules[k].group_id)
    ||| blank(rules[k].match_host)
    ||| exists|m: int| 0 <= m < k && (#[trigger] rules[m]).match_host == rules[k].match_host
}

/// The error listener `i` raises, given the listeners before it.
pub open spec fn listener_check(ls: Seq<IngressListenerV>, groups: Seq<ClientGroupV>, i: int) -> Option<
    SnapshotError,
> {
    if exists|j: int| 0 <= j < i && (#[trigger] ls[j]).port == ls[i].port {
        Some(SnapshotError::DuplicateIngressPort(ls[i].port))
    } else {
        match ls[i].mode {
            IngressModeV::Http { vhost } => if exists|k: int|
                0 <= k < vhost.len() && #[trigger] vhost_rule_bad(vhost, k, groups) {
                Some(SnapshotError::InvalidIngressVhostRule)
            } else {
                None
            },
            IngressModeV::Tcp { group_id, proxy_name } => if !group_known(groups, group_id) {
                Some(SnapshotError::UnknownListenerGroup)
            } else {
                None
            },
        }
    }
}

/// The first error among the first `n` listeners.
pub open spec fn listeners_error(ls: Seq<IngressListenerV>, groups: Seq<ClientGroupV>, n: int) -> Option<
    SnapshotError,
>
    decreases n,
{
    if n <= 0 {
        None
    } else {
        match listeners_error(ls, groups, n - 1) {
            Some(e) => Some(e),
            None => listener_check(ls, groups, n - 1),
        }
    }
}

/// The error upstream `k` of a client group raises, given those before it.
pub open spec fn upstream_check(ups: Seq<ClientUpstreamV>, k: int) -> Option<SnapshotError> {
    if blank(ups[k].name) || exists|m: int| 0 <= m < k && (#[trigger] ups[m]).name == ups[k].name {
        Some(SnapshotError::InvalidClientUpstreamNames)
    } else if exists|j: int|
        0 <= j < ups[k].servers.len() && blank((#[trigger] ups[k].servers[j]).address) {
        Some(SnapshotError::EmptyClientServerAddress)
    } else {
        None
    }
}

/// The first error among the first `n` upstreams of a client group.
pub open spec fn upstreams_error(ups: Seq<ClientUpstreamV>, n: int) -> Option<SnapshotError>
    decreases n,
{
    if n <= 0 {
        None
    } else {
        match upstreams_error(ups, n - 1) {
            Some(e) => Some(e),
            None => upstream_check(ups, n - 1),
        }
    }
}

/// The first error among the upstreams of the first `n` client groups.
pub open spec fn groups_error(groups: Seq<ClientGroupV>, n: int) -> Option<SnapshotError>
    decreases n,
{
    if n <= 0 {
        None
    } else {
        match groups_error(groups, n - 1) {
            Some(e) => Some(e),
            None => upstreams_error(groups[n - 1].upstreams, groups[n - 1].upstreams.len() as int),
        }
    }
}

/// Egress upstream names repeat or are blank, or a server address is blank.
pub open spec fn egress_upstreams_bad(us: Seq<EgressUpstreamV>) -> bool {
    ||| !keys_unique::<EgressUpstreamDef>(us)
    ||| exists|i: int| 0 <= i < us.len() && blank((#[trigger] us[i]).name)
    ||| exists|i: int, j: int|
        0 <= i < us.len() && 0 <= j < us[i].servers.len() && blank(
            (#[trigger] us[i].servers[j]).address,
        )
}

/// Some egress upstream is named `name`.
pub open spec fn upstream_known(us: Seq<EgressUpstreamV>, name: Seq<char>) -> bool {
    exists|i: int| 0 <= i < us.len() && (#[trigger] us[i]).name == name
}

/// Egress rule `k` has a blank host, repeats an earlier host, or names an
/// unknown upstream.
pub open spec fn egress_rule_bad(rules: Seq<EgressVhostRuleV>, k: int, us: Seq<EgressUpstreamV>) -> bool {
    ||| blank(rules[k].match_host)
    ||| exists|m: int| 0 <= m < k && (#[trigger] rules[m]).match_host == rules[k].match_host
    ||| !upstream_known(us, rules[k].action_upstream)
}

/// Token hashes repeat or are blank.
pub open spec fn tokens_bad(ts: Seq<TokenCacheEntryV>) -> bool {
    ||| !keys_unique::<TokenCacheEntryDef>(ts)
    ||| exists|i: int| 0 <= i < ts.len() && blank((#[trigger] ts[i]).hash_hex)
}

/// The first rule `s` breaks, checked in the order: client group ids,
/// ingress listeners one by one, client upstreams group by group, egress
/// upstreams, egress vhost rules, token hashes.
pub open spec fn snapshot_error(s: SnapshotV) -> Option<SnapshotError> {
    let le = listeners_error(s.ingress_listeners, s.client_groups, s.ingress_listeners.len() as int);
    let ge = groups_error(s.client_groups, s.client_groups.len() as int);
    if group_ids_bad(s.client_groups) {
        Some(SnapshotError::DuplicateOrEmptyClientGroup)
    } else if le is Some {
        le
    } else if ge is Some {
        ge
    } else if egress_upstreams_bad(s.egress_upstreams) {
        Some(SnapshotError::InvalidEgressUpstreams)
    } else if exists|k: int|
        0 <= k < s.egress_vhost_rules.len() && #[trigger] egress_rule_bad(
            s.egress_vhost_rules,
            k,
            s.egress_upstreams,
        ) {
        Some(SnapshotError::InvalidEgressVhostRule)
    } else if tokens_bad(s.token_cache) {
        Some(SnapshotError::InvalidTokenCacheEntries)
    } else {
        None
    }
}

proof fn lemma_listeners_error_stable(ls: Seq<IngressListenerV>, groups: Seq<ClientGroupV>, n: int, m: int)
    requires
        0 <= n <= m,
        listeners_error(ls, groups, n) is Some,
    ensures
        listeners_error(ls, groups, m) == listeners_error(ls, groups, n),
    decreases m - n,
{
    if m > n {
        lemma_listeners_error_stable(ls, groups, n, m - 1);
    }
}

proof fn lemma_upstreams_error_stable(ups: Seq<ClientUpstreamV>, n: int, m: int)
    requires
        0 <= n <= m,
        upstreams_error(ups, n) is Some,
    ensures
        upstreams_error(ups, m) == upstreams_error(ups, n),
    decreases m - n,
{
    if m > n {
        lemma_upstreams_error_stable(ups, n, m - 1);
    }
}

proof fn lemma_groups_error_stable(groups: Seq<ClientGroupV>, n: int, m: int)
    requires
        0 <= n <= m,
        groups_error(groups, n) is Some,
    ensures
        groups_error(groups, m) == groups_error(groups, n),
    decreases m - n,
{
    if m > n {
        lemma_groups_error_stable(groups, n, m - 1);
    }
}

/// Whether `s` is empty or whitespace only.
pub fn is_blank(s: &String) -> (r: bool)
    ensures
        r == blank(s@),
{
    let cs = chars_of(s.as_str());
    let mut i: usize = 0;
    while i < cs.len()
        invariant
            i <= cs@.len(),
            cs@ == s@,
            forall|j: int| 0 <= j < i ==> is_unicode_whitespace(#[trigger] cs@[j]),
        decreases cs@.len() - i,
    {
        if !is_whitespace_char(cs[i]) {
            return false;
        }
        i = i + 1;
    }
    true
}

fn is_group_known(groups: &Vec<ClientGroupDef>, id: &String) -> (r: bool)
    ensures
        r == group_known(seq_view(groups@), id@),
{
    let ghost gv = seq_view(groups@);
    let mut i: usize = 0;
    while i < groups.len()
        invariant
            i <= groups@.len(),
            gv == seq_view(groups@),
            forall|j: int| 0 <= j < i ==> (#[trigger] gv[j]).group_id != id@,
        decreases groups@.len() - i,
    {
        if string_eq(&groups[i].group_id, id) {
            assert(gv[i as int].group_id == id@);
            return true;
        }
        i = i + 1;
    }
    false
}

fn is_upstream_known(us: &Vec<EgressUpstreamDef>, name: &String) -> (r: bool)
    ensures
        r == upstream_known(seq_view(us@), name@),
{
    let ghost uv = seq_view(us@);
    let mut i: usize = 0;
    while i < us.len()
        invariant
            i <= us@.len(),
            uv == seq_view(us@),
            forall|j: int| 0 <= j < i ==> (#[trigger] uv[j]).name != name@,
        decreases us@.len() - i,
    {
        if string_eq(&us[i].name, name) {
            assert(uv[i as int].name == name@);
            return true;
        }
        i = i + 1;
    }
    false
}

fn any_blank_address(servers: &Vec<UpstreamServerDef>) -> (r: bool)
    ensures
        r == exists|j: int|
            0 <= j < servers@.len() && blank((#[trigger] seq_view(servers@)[j]).address),
{
    let ghost sv = seq_view(servers@);
    let mut j: usize = 0;
    while j < servers.len()
        invariant
            j <= servers@.len(),
            sv == seq_view(servers@),
            forall|k: int| 0 <= k < j ==> !blank((#[trigger] sv[k]).address),
        decreases servers@.len() - j,
    {
        if is_blank(&servers[j].address) {
            assert(blank(sv[j as int].address));
            return true;
        }
        j = j + 1;
    }
    false
}

fn check_vhost_rule(rules: &Vec<IngressVhostRuleDef>, k: usize, groups: &Vec<ClientGroupDef>) -> (r: bool)
    requires
        k < rules@.len(),
    ensures
        r == vhost_rule_bad(seq_view(rules@), k as int, seq_view(groups@)),
{
    let ghost rv = seq_view(rules@);
    if !is_group_known(groups, &rules[k].group_id) {
        return true;
    }
    if is_blank(&rules[k].match_host) {
        return true;
    }
    let mut m: usize = 0;
    while m < k
        invariant
            k < rules@.len(),
            m <= k,
            rv == seq_view(rules@),
            forall|j: int| 0 <= j < m ==> (#[trigger] rv[j]).match_host != rv[k as int].match_host,
        decreases k - m,
    {
        if string_eq(&rules[m].match_host, &rules[k].match_host) {
            assert(rv[m as int].match_host == rv[k as int].match_host);
            return true;
        }
        m = m + 1;
    }
    false
}

fn check_listener(ls: &Vec<IngressListenerDef>, groups: &Vec<ClientGroupDef>, i: usize) -> (r: Option<
    SnapshotError,
>)
    requires
        i < ls@.len(),
    ensures
        r == listener_check(seq_view(ls@), seq_view(groups@), i as int),
{
    let ghost lv = seq_view(ls@);
    let mut j: usize = 0;
    while j < i
        invariant
            i < ls@.len(),
            j <= i,
            lv == seq_view(ls@),
            forall|a: int| 0 <= a < j ==> (#[trigger] lv[a]).port != lv[i as int].port,
        decreases i - j,
    {
        if ls[j].port == ls[i].port {
            assert(lv[j as int].port == lv[i as int].port);
            return Some(SnapshotError::DuplicateIngressPort(ls[i].port));
        }
        j = j + 1;
    }
    assert(!exists|a: int| 0 <= a < i && (#[trigger] lv[a]).port == lv[i as int].port);
    match &ls[i].mode {
        IngressListenerModeDef::Http { vhost } => {
            let ghost rv = seq_view(vhost@);
            assert(lv[i as int].mode == IngressModeV::Http { vhost: rv });
            let mut k: usize = 0;
            while k < vhost.len()
                invariant
                    k <= vhost@.len(),
                    rv == seq_view(vhost@),
                    i < ls@.len(),
                    lv == seq_view(ls@),
                    lv[i as int].mode == (IngressModeV::Http { vhost: rv }),
                    !exists|a: int| 0 <= a < i && (#[trigger] lv[a]).port == lv[i as int].port,
                    forall|a: int| 0 <= a < k ==> !#[trigger] vhost_rule_bad(rv, a, seq_view(groups@)),
                decreases vhost@.len() - k,
            {
                if check_vhost_rule(vhost, k, groups) {
                    assert(vhost_rule_bad(rv, k as int, seq_view(groups@)));
                    assert(exists|a: int| 0 <= a < rv.len() && #[trigger] vhost_rule_bad(rv, a, seq_view(groups@)));
                    assert(!exists|a: int| 0 <= a < i && (#[trigger] lv[a]).port == lv[i as int].port);
                    assert(lv[i as int].mode is Http);
                    assert(lv[i as int].mode->vhost == rv);
                    assert(listener_check(lv, seq_view(groups@), i as int) == Some(SnapshotError::InvalidIngressVhostRule));
                    return Some(SnapshotError::InvalidIngressVhostRule);
                }
                k = k + 1;
            }
            None
        },
        IngressListenerModeDef::Tcp { group_id, proxy_name } => {
            assert(lv[i as int].mode == IngressModeV::Tcp { group_id: group_id@, proxy_name: proxy_name@ });
            if !is_group_known(groups, group_id) {
                Some(SnapshotError::UnknownListenerGroup)
            } else {
                None
            }
        },
    }
}

fn check_upstreams(ups: &Vec<ClientUpstreamDef>) -> (r: Option<SnapshotError>)
    ensures
        r == upstreams_error(seq_view(ups@), ups@.len() as int),
{
    let ghost uv = seq_view(ups@);
    let mut k: usize = 0;
    while k < ups.len()
        invariant
            k <= ups@.len(),
            uv == seq_view(ups@),
            upstreams_error(uv, k as int) is None,
        decreases ups@.len() - k,
    {
        let mut bad = is_blank(&ups[k].name);
        let mut m: usize = 0;
        while m < k && !bad
            invariant
                k < ups@.len(),
                m <= k,
                uv == seq_view(ups@),
                upstreams_error(uv, k as int) is None,
                bad == blank(uv[k as int].name),
                forall|j: int| 0 <= j < m ==> (#[trigger] uv[j]).name != uv[k as int].name,
            decreases k - m,
        {
            if string_eq(&ups[m].name, &ups[k].name) {
                assert(uv[m as int].name == uv[k as int].name);
                proof {
                    lemma_upstreams_error_stable(uv, k + 1, uv.len() as int);
                }
                return Some(SnapshotError::InvalidClientUpstreamNames);
            }
            m = m + 1;
        }
        if bad {
            proof {
                lemma_upstreams_error_stable(uv, k + 1, uv.len() as int);
            }
            return Some(SnapshotError::InvalidClientUpstreamNames);
        }
        assert(!exists|j: int| 0 <= j < k && (#[trigger] uv[j]).name == uv[k as int].name);
        assert(uv[k as int].servers == seq_view(ups@[k as int].servers@));
        if any_blank_address(&ups[k].servers) {
            proof {
                lemma_upstreams_error_stable(uv, k + 1, uv.len() as int);
            }
            return Some(SnapshotError::EmptyClientServerAddress);
        }
        k = k + 1;
    }
    None
}

fn check_groups(groups: &Vec<ClientGroupDef>) -> (r: Option<SnapshotError>)
    ensures
        r == groups_error(seq_view(groups@), groups@.len() as int),
{
    let ghost gv = seq_view(groups@);
    let mut i: usize = 0;
    while i < groups.len()
        invariant
            i <= groups@.len(),
            gv == seq_view(groups@),
            groups_error(gv, i as int) is None,
        decreases groups@.len() - i,
    {
        let e = check_upstreams(&groups[i].upstreams);
        assert(gv[i as int].upstreams == seq_view(groups@[i as int].upstreams@));
        if e.is_some() {
            proof {
                lemma_groups_error_stable(gv, i + 1, gv.len() as int);
            }
            return e;
        }
        i = i + 1;
    }
    None
}

fn egress_rule_is_bad(
    rules: &Vec<EgressVhostRuleDef>,
    k: usize,
    us: &Vec<EgressUpstreamDef>,
) -> (r: bool)
    requires
        k < rules@.len(),
    ensures
        r == egress_rule_bad(seq_view(rules@), k as int, seq_view(us@)),
{
    let ghost rv = seq_view(rules@);
    if is_blank(&rules[k].match_host) {
        return true;
    }
    let mut m: usize = 0;
    while m < k
        invariant
            k < rules@.len(),
            m <= k,
            rv == seq_view(rules@),
            forall|j: int| 0 <= j < m ==> (#[trigger] rv[j]).match_host != rv[k as int].match_host,
        decreases k - m,
    {
        if string_eq(&rules[m].match_host, &rules[k].match_host) {
            assert(rv[m as int].match_host == rv[k as int].match_host);
            return true;
        }
        m = m + 1;
    }
    !is_upstream_known(us, &rules[k].action_upstream)
}

/// Checks the consistency rules of `snapshot`, reporting the first one it
/// breaks.
pub fn validate_config_snapshot(snapshot: &ConfigSnapshot) -> (r: Result<(), SnapshotError>)
    ensures
        match r {
            Ok(()) => snapshot_error(snapshot@) is None,
            Err(e) => snapshot_error(snapshot@) == Some(e),
        },
{
    let ghost s = snapshot@;
    let groups = &snapshot.client_groups;
    let mut bad_group = !keys_are_unique(groups);
    let mut i: usize = 0;
    while i < groups.len() && !bad_group
        invariant
            i <= groups@.len(),
            s == snapshot@,
            groups == &snapshot.client_groups,
            bad_group == !keys_unique::<ClientGroupDef>(s.client_groups),
            forall|j: int| 0 <= j < i ==> !blank((#[trigger] s.client_groups[j]).group_id),
        decreases groups@.len() - i,
    {
        if is_blank(&groups[i].group_id) {
            assert(blank(s.client_groups[i as int].group_id));
            return Err(SnapshotError::DuplicateOrEmptyClientGroup);
        }
        i = i + 1;
    }
    if bad_group {
        return Err(SnapshotError::DuplicateOrEmptyClientGroup);
    }
    assert(!group_ids_bad(s.client_groups));
    let ls = &snapshot.ingress_listeners;
    let mut i: usize = 0;
    while i < ls.len()
        invariant
            i <= ls@.len(),
            s == snapshot@,
            ls == &snapshot.ingress_listeners,
            groups == &snapshot.client_groups,
            !group_ids_bad(s.client_groups),
            listeners_error(s.ingress_listeners, s.client_groups, i as int) is None,
        decreases ls@.len() - i,
    {
        let e = check_listener(ls, groups, i);
        if e.is_some() {
            proof {
                lemma_listeners_error_stable(
                    s.ingress_listeners,
                    s.client_groups,
                    i + 1,
                    s.ingress_listeners.len() as int,
                );
            }
            return Err(e.unwrap());
        }
        i = i + 1;
    }
    assert(listeners_error(s.ingress_listeners, s.client_groups, s.ingress_listeners.len() as int) is None);
    let ge = check_groups(groups);
    if ge.is_some() {
        return Err(ge.unwrap());
    }
    assert(groups_error(s.client_groups, s.client_groups.len() as int) is None);
    let us = &snapshot.egress_upstreams;
    if !keys_are_unique(us) {
        return Err(SnapshotError::InvalidEgressUpstreams);
    }
    let mut i: usize = 0;
    while i < us.len()
        invariant
            i <= us@.len(),
            s == snapshot@,
            us == &snapshot.egress_upstreams,
            keys_unique::<EgressUpstreamDef>(s.egress_upstreams),
            !group_ids_bad(s.client_groups),
            listeners_error(s.ingress_listeners, s.client_groups, s.ingress_listeners.len() as int) is None,
            groups_error(s.client_groups, s.client_groups.len() as int) is None,

            forall|j: int| 0 <= j < i ==> !blank((#[trigger] s.egress_upstreams[j]).name),
            forall|a: int, b: int|
                0 <= a < i && 0 <= b < s.egress_upstreams[a].servers.len() ==> !blank(
                    (#[trigger] s.egress_upstreams[a].servers[b]).address,
                ),
        decreases us@.len() - i,
    {
        if is_blank(&us[i].name) {
            assert(blank(s.egress_upstreams[i as int].name));
            return Err(SnapshotError::InvalidEgressUpstreams);
        }
        if any_blank_address(&us[i].servers) {
            proof {
                let sv = seq_view(us@[i as int].servers@);
                assert(s.egress_upstreams[i as int].servers == sv);
                let j = choose|j: int| 0 <= j < sv.len() && blank((#[trigger] sv[j]).address);
                assert(blank(s.egress_upstreams[i as int].servers[j].address));
            }
            return Err(SnapshotError::InvalidEgressUpstreams);
        }
        i = i + 1;
    }
    assert(!egress_upstreams_bad(s.egress_upstreams));
    let rules = &snapshot.egress_vhost_rules;
    let mut k: usize = 0;
    while k < rules.len()
        invariant
            k <= rules@.len(),
            s == snapshot@,
            rules == &snapshot.egress_vhost_rules,
            us == &snapshot.egress_upstreams,
            !egress_upstreams_bad(s.egress_upstreams),
            !group_ids_bad(s.client_groups),
            listeners_error(s.ingress_listeners, s.client_groups, s.ingress_listeners.len() as int) is None,
            groups_error(s.client_groups, s.client_groups.len() as int) is None,

            forall|a: int|
                0 <= a < k ==> !#[trigger] egress_rule_bad(s.egress_vhost_rules, a, s.egress_upstreams),
        decreases rules@.len() - k,
    {
        if egress_rule_is_bad(rules, k, us) {
            assert(egress_rule_bad(s.egress_vhost_rules, k as int, s.egress_upstreams));
            return Err(SnapshotError::InvalidEgressVhostRule);
        }
        k = k + 1;
    }
    let ts = &snapshot.token_cache;
    let mut i: usize = 0;
    while i < ts.len()
        invariant
            i <= ts@.len(),
            s == snapshot@,
            ts == &snapshot.token_cache,
            !egress_upstreams_bad(s.egress_upstreams),
            !exists|a: int|
                0 <= a < s.egress_vhost_rules.len() && #[trigger] egress_rule_bad(
                    s.egress_vhost_rules,
                    a,
                    s.egress_upstreams,
                ),
            !group_ids_bad(s.client_groups),
            listeners_error(s.ingress_listeners, s.client_groups, s.ingress_listeners.len() as int) is None,
            groups_error(s.client_groups, s.client_groups.len() as int) is None,

            forall|j: int| 0 <= j < i ==> !blank((#[trigger] s.token_cache[j]).hash_hex),
        decreases ts@.len() - i,
    {
        if is_blank(&ts[i].hash_hex) {
            assert(blank(s.token_cache[i as int].hash_hex));
            return Err(SnapshotError::InvalidTokenCacheEntries);
        }
        i = i + 1;
    }
    if !keys_are_unique(ts) {
        return Err(SnapshotError::InvalidTokenCacheEntries);
    }
    Ok(())
}

proof fn lemma_listeners_error_none(ls: Seq<IngressListenerV>, groups: Seq<ClientGroupV>, n: int)
    requires
        listeners_error(ls, groups, n) is None,
    ensures
        forall|i: int| 0 <= i < n ==> #[trigger] listener_check(ls, groups, i) is None,
    decreases n,
{
    if n > 0 {
        lemma_listeners_error_none(ls, groups, n - 1);
    }
}

proof fn lemma_valid_egress_rules(s: SnapshotV)
    requires
        forall|k: int|
            0 <= k < s.egress_vhost_rules.len() ==> !egress_rule_bad(
                s.egress_vhost_rules,
                k,
                s.egress_upstreams,
            ),
    ensures
        forall|k: int|
            0 <= k < s.egress_vhost_rules.len() ==> has_key::<EgressUpstreamDef>(
                s.egress_upstreams,
                (#[trigger] s.egress_vhost_rules[k]).action_upstream,
            ),
{
    let rules = s.egress_vhost_rules;
    let us = s.egress_upstreams;
    assert forall|k: int| 0 <= k < rules.len() implies has_key::<EgressUpstreamDef>(
        us,
        (#[trigger] rules[k]).action_upstream,
    ) by {
        assert(!egress_rule_bad(rules, k, us));
        let j = choose|j: int| 0 <= j < us.len() && (#[trigger] us[j]).name == rules[k].action_upstream;
        assert(EgressUpstreamDef::key_of(us[j]) == rules[k].action_upstream);
    }
}

/// A snapshot that passes the checks has distinct keys in every collection
/// (ingress ports, group ids, egress upstream names, egress vhost hosts,
/// token hashes); every egress vhost rule sends to an egress upstream that
/// exists; every listener names only groups that exist, and the virtual
/// hosts of a listener are distinct.
pub proof fn law_valid_snapshot_is_consistent(s: SnapshotV)
    requires
        snapshot_error(s) is None,
    ensures
        keys_unique::<IngressListenerDef>(s.ingress_listeners),
        keys_unique::<ClientGroupDef>(s.client_groups),
        keys_unique::<EgressUpstreamDef>(s.egress_upstreams),
        keys_unique::<EgressVhostRuleDef>(s.egress_vhost_rules),
        keys_unique::<TokenCacheEntryDef>(s.token_cache),
        forall|k: int|
            0 <= k < s.egress_vhost_rules.len() ==> has_key::<EgressUpstreamDef>(
                s.egress_upstreams,
                (#[trigger] s.egress_vhost_rules[k]).action_upstream,
            ),
        forall|i: int|
            0 <= i < s.ingress_listeners.len() ==> match (#[trigger] s.ingress_listeners[i]).mode {
                IngressModeV::Tcp { group_id, .. } => exists|g: int|
                    0 <= g < s.client_groups.len() && s.client_groups[g].group_id == group_id,
                IngressModeV::Http { vhost } => keys_unique::<IngressVhostRuleDef>(vhost) && forall|
                    r: int,
                |
                    0 <= r < vhost.len() ==> exists|g: int|
                        0 <= g < s.client_groups.len() && s.client_groups[g].group_id == (
                        #[trigger] vhost[r]).group_id,
            },
{
    let rules = s.egress_vhost_rules;
    let us = s.egress_upstreams;
    assert forall|k: int| 0 <= k < rules.len() implies !egress_rule_bad(rules, k, us) by {
        if egress_rule_bad(rules, k, us) {
            assert(exists|a: int| 0 <= a < rules.len() && #[trigger] egress_rule_bad(rules, a, us));
        }
    }
    assert forall|a: int, b: int| 0 <= a < b < rules.len() implies EgressVhostRuleDef::key_of(
        #[trigger] rules[a],
    ) != EgressVhostRuleDef::key_of(#[trigger] rules[b]) by {
        assert(!egress_rule_bad(rules, b, us));
    }
    lemma_valid_egress_rules(s);
    let ls = s.ingress_listeners;
    let gs = s.client_groups;
    lemma_listeners_error_none(ls, gs, ls.len() as int);
    assert forall|a: int, b: int| 0 <= a < b < ls.len() implies IngressListenerDef::key_of(
        #[trigger] ls[a],
    ) != IngressListenerDef::key_of(#[trigger] ls[b]) by {
        assert(listener_check(ls, gs, b) is None);
    }
    assert forall|i: int| 0 <= i < ls.len() implies match (#[trigger] ls[i]).mode {
        IngressModeV::Tcp { group_id, .. } => exists|g: int|
            0 <= g < gs.len() && gs[g].group_id == group_id,
        IngressModeV::Http { vhost } => keys_unique::<IngressVhostRuleDef>(vhost) && forall|r: int|
            0 <= r < vhost.len() ==> exists|g: int|
                0 <= g < gs.len() && gs[g].group_id == (#[trigger] vhost[r]).group_id,
    } by {
        assert(listener_check(ls, gs, i) is None);
        match ls[i].mode {
            IngressModeV::Tcp { group_id, .. } => {
                assert(group_known(gs, group_id));
            },
            IngressModeV::Http { vhost } => {
                assert forall|r: int| 0 <= r < vhost.len() implies !vhost_rule_bad(vhost, r, gs) by {
                    if vhost_rule_bad(vhost, r, gs) {
                        assert(exists|k: int| 0 <= k < vhost.len() && #[trigger] vhost_rule_bad(vhost, k, gs));
                    }
                }
                assert forall|a: int, b: int| 0 <= a < b < vhost.len() implies IngressVhostRuleDef::key_of(
                    #[trigger] vhost[a],
                ) != IngressVhostRuleDef::key_of(#[trigger] vhost[b]) by {
                    assert(!vhost_rule_bad(vhost, b, gs));
                }
                assert forall|r: int| 0 <= r < vhost.len() implies exists|g: int|
                    0 <= g < gs.len() && gs[g].group_id == (#[trigger] vhost[r]).group_id by {
                    assert(!vhost_rule_bad(vhost, r, gs));
                    assert(group_known(gs, vhost[r].group_id));
                }
            },
        }
    }
}

} // verus!

//! The routing records the control plane distributes, their mathematical
//! views, and the key each record is identified by in its collection.

use vstd::prelude::*;
use crate::text::chars_of;

verus! {

/// Views of a sequence of records.
pub open spec fn seq_view<T: View>(s: Seq<T>) -> Seq<T::V> {
    s.map_values(|x: T| x@)
}

/// Lexicographic order on strings by code point (which is also the byte
/// order of their UTF-8 encodings, the order of `String`).
pub open spec fn seq_lt(a: Seq<char>, b: Seq<char>) -> bool
    decreases a.len(),
{
    if a.len() == 0 {
        b.len() > 0
    } else if b.len() == 0 {
        false
    } else if a[0] != b[0] {
        a[0] < b[0]
    } else {
        seq_lt(a.drop_first(), b.drop_first())
    }
}

pub proof fn lemma_seq_lt_trichotomy(a: Seq<char>, b: Seq<char>)
    ensures
        a == b || seq_lt(a, b) || seq_lt(b, a),
        !(seq_lt(a, b) && seq_lt(b, a)),
        !seq_lt(a, a),
    decreases a.len(),
{
    if a.len() > 0 && b.len() > 0 && a[0] == b[0] {
        lemma_seq_lt_trichotomy(a.drop_first(), b.drop_first());
        if a.drop_first() == b.drop_first() {
            assert forall|i: int| 0 <= i < a.len() implies a[i] == b[i] by {
                if i > 0 {
                    assert(a[i] == a.drop_first()[i - 1]);
                    assert(b[i] == b.drop_first()[i - 1]);
                }
            }
            assert(a =~= b);
        }
    }
    if a.len() == 0 && b.len() == 0 {
        assert(a =~= b);
    }
    if a.len() > 0 {
        lemma_seq_lt_trichotomy(a.drop_first(), a.drop_first());
    }
}

pub proof fn lemma_seq_lt_transitive(a: Seq<char>, b: Seq<char>, c: Seq<char>)
    requires
        seq_lt(a, b),
        seq_lt(b, c),
    ensures
        seq_lt(a, c),
    decreases a.len(),
{
    if a.len() > 0 && b.len() > 0 && c.len() > 0 && a[0] == b[0] && b[0] == c[0] {
        lemma_seq_lt_transitive(a.drop_first(), b.drop_first(), c.drop_first());
    }
}

/// String equality.
pub fn string_eq(a: &String, b: &String) -> (r: bool)
    ensures
        r == (a@ == b@),
{
    *a == *b
}

/// Lexicographic string order (`<` on `String`).
pub fn string_lt(a: &String, b: &String) -> (r: bool)
    ensures
        r == seq_lt(a@, b@),
{
    let x = chars_of(a.as_str());
    let y = chars_of(b.as_str());
    let mut i: usize = 0;
    assert(x@.skip(0) =~= x@);
    assert(y@.skip(0) =~= y@);
    while i < x.len() && i < y.len()
        invariant
            i <= x@.len(),
            i <= y@.len(),
            x@ == a@,
            y@ == b@,
            seq_lt(x@, y@) == seq_lt(x@.skip(i as int), y@.skip(i as int)),
        decreases x@.len() - i,
    {
        let ghost xs = x@.skip(i as int);
        let ghost ys = y@.skip(i as int);
        assert(xs[0] == x@[i as int]);
        assert(ys[0] == y@[i as int]);
        if x[i] != y[i] {
            return x[i] < y[i];
        }
        assert(xs.drop_first() =~= x@.skip(i + 1));
        assert(ys.drop_first() =~= y@.skip(i + 1));
        i = i + 1;
    }
    assert(x@.skip(i as int).len() == x@.len() - i);
    assert(y@.skip(i as int).len() == y@.len() - i);
    x.len() == i && i < y.len()
}

/// Records whose equality and copying can be stated by their views.
pub trait SameView: View + Sized {
    /// Whether two records are equal.
    fn same(&self, other: &Self) -> (r: bool)
        ensures
            r == (self@ == other@),
    ;

    /// A copy of the record.
    fn duplicate(&self) -> (r: Self)
        ensures
            r@ == self@,
    ;
}

/// Element-wise equality of two record vectors.
pub fn vec_same<T: SameView>(a: &Vec<T>, b: &Vec<T>) -> (r: bool)
    ensures
        r == (seq_view(a@) == seq_view(b@)),
{
    if a.len() != b.len() {
        assert(seq_view(a@).len() != seq_view(b@).len());
        return false;
    }
    let mut i: usize = 0;
    while i < a.len()
        invariant
            a@.len() == b@.len(),
            i <= a@.len(),
            forall|j: int| 0 <= j < i ==> a@[j]@ == b@[j]@,
        decreases a@.len() - i,
    {
        if !a[i].same(&b[i]) {
            assert(seq_view(a@)[i as int] != seq_view(b@)[i as int]);
            return false;
        }
        i = i + 1;
    }
    assert(seq_view(a@) =~= seq_view(b@));
    true
}

/// A copy of a record vector.
pub fn vec_duplicate<T: SameView>(a: &Vec<T>) -> (r: Vec<T>)
    ensures
        seq_view(r@) == seq_view(a@),
{
    let mut out: Vec<T> = Vec::new();
    let mut i: usize = 0;
    while i < a.len()
        invariant
            i <= a@.len(),
            out@.len() == i,
            forall|j: int| 0 <= j < i ==> out@[j]@ == a@[j]@,
        decreases a@.len() - i,
    {
        out.push(a[i].duplicate());
        i = i + 1;
    }
    assert(seq_view(out@) =~= seq_view(a@));
    out
}

/// Records kept in a collection where a key identifies each one.
pub trait Keyed: SameView {
    type Key: View;

    /// The key of a record.
    spec fn key_of(v: Self::V) -> <Self::Key as View>::V;

    /// The order keys are enumerated in.
    spec fn key_lt(a: <Self::Key as View>::V, b: <Self::Key as View>::V) -> bool;

    proof fn lemma_key_order(
        a: <Self::Key as View>::V,
        b: <Self::Key as View>::V,
        c: <Self::Key as View>::V,
    )
        ensures
            a == b || Self::key_lt(a, b) || Self::key_lt(b, a),
            !Self::key_lt(a, a),
            Self::key_lt(a, b) && Self::key_lt(b, c) ==> Self::key_lt(a, c),
    ;

    fn key(&self) -> (k: Self::Key)
        ensures
            k@ == Self::key_of(self@),
    ;

    fn key_eq(a: &Self::Key, b: &Self::Key) -> (r: bool)
        ensures
            r == (a@ == b@),
    ;

    fn key_less(a: &Self::Key, b: &Self::Key) -> (r: bool)
        ensures
            r == Self::key_lt(a@, b@),
    ;

    fn key_copy(k: &Self::Key) -> (r: Self::Key)
        ensures
            r@ == k@,
    ;
}

/// Whether a client may connect.
#[derive(Clone, Copy, Debug, PartialEq, Eq, Structural)]
pub enum ClientStatus {
    Active,
    Disabled,
}

/// Whether a token is still honoured.
#[derive(Clone, Copy, Debug, PartialEq, Eq, Structural)]
pub enum TokenStatus {
    Active,
    Revoked,
}

/// One server of an upstream.
#[derive(Clone, Debug, PartialEq, Eq)]
pub struct UpstreamServerDef {
    pub address: String,
    pub resolve: bool,
}

pub struct UpstreamServerV {
    pub address: Seq<char>,
    pub resolve: bool,
}

impl View for UpstreamServerDef {
    type V = UpstreamServerV;

    open spec fn view(&self) -> UpstreamServerV {
        UpstreamServerV { address: self.address@, resolve: self.resolve }
    }
}

impl SameView for UpstreamServerDef {
    fn same(&self, other: &Self) -> (r: bool) {
        string_eq(&self.address, &other.address) && self.resolve == other.resolve
    }

    fn duplicate(&self) -> (r: Self) {
        UpstreamServerDef { address: self.address.clone(), resolve: self.resolve }
    }
}

/// Servers are ordered by address, then by the resolve flag (`false`
/// first).
impl Keyed for UpstreamServerDef {
    type Key = (String, bool);

    open spec fn key_of(v: UpstreamServerV) -> (Seq<char>, bool) {
        (v.address, v.resolve)
    }

    open spec fn key_lt(a: (Seq<char>, bool), b: (Seq<char>, bool)) -> bool {
        seq_lt(a.0, b.0) || (a.0 == b.0 && !a.1 && b.1)
    }

    proof fn lemma_key_order(a: (Seq<char>, bool), b: (Seq<char>, bool), c: (Seq<char>, bool)) {
        lemma_seq_lt_trichotomy(a.0, b.0);
        lemma_seq_lt_trichotomy(b.0, c.0);
        lemma_seq_lt_trichotomy(a.0, c.0);
        lemma_seq_lt_trichotomy(a.0, a.0);
        if seq_lt(a.0, b.0) && seq_lt(b.0, c.0) {
            lemma_seq_lt_transitive(a.0, b.0, c.0);
        }
    }

    fn key(&self) -> (k: (String, bool)) {
        let k = (self.address.clone(), self.resolve);
        assert(k@ == (k.0@, k.1@));
        k
    }

    fn key_eq(a: &(String, bool), b: &(String, bool)) -> (r: bool) {
        assert(a@ == (a.0@, a.1@) && b@ == (b.0@, b.1@));
        string_eq(&a.0, &b.0) && a.1 == b.1
    }

    fn key_less(a: &(String, bool), b: &(String, bool)) -> (r: bool) {
        assert(a@ == (a.0@, a.1@) && b@ == (b.0@, b.1@));
        string_lt(&a.0, &b.0) || (string_eq(&a.0, &b.0) && !a.1 && b.1)
    }

    fn key_copy(k: &(String, bool)) -> (r: (String, bool)) {
        (k.0.clone(), k.1)
    }
}

/// An upstream of a client group: a load-balanced set of servers.
#[derive(Clone, Debug, PartialEq, Eq)]
pub struct ClientUpstreamDef {
    pub name: String,
    pub lb_policy: String,
    pub servers: Vec<UpstreamServerDef>,
}

pub struct ClientUpstreamV {
    pub name: Seq<char>,
    pub lb_policy: Seq<char>,
    pub servers: Seq<UpstreamServerV>,
}

impl View for ClientUpstreamDef {
    type V = ClientUpstreamV;

    open spec fn view(&self) -> ClientUpstreamV {
        ClientUpstreamV {
            name: self.name@,
            lb_policy: self.lb_policy@,
            servers: seq_view(self.servers@),
        }
    }
}

impl SameView for ClientUpstreamDef {
    fn same(&self, other: &Self) -> (r: bool) {
        string_eq(&self.name, &other.name) && string_eq(&self.lb_policy, &other.lb_policy)
            && vec_same(&self.servers, &other.servers)
    }

    fn duplicate(&self) -> (r: Self) {
        ClientUpstreamDef {
            name: self.name.clone(),
            lb_policy: self.lb_policy.clone(),
            servers: vec_duplicate(&self.servers),
        }
    }
}

/// The upstreams of a group are ordered by name.
impl Keyed for ClientUpstreamDef {
    type Key = String;

    open spec fn key_of(v: ClientUpstreamV) -> Seq<char> {
        v.name
    }

    open spec fn key_lt(a: Seq<char>, b: Seq<char>) -> bool {
        seq_lt(a, b)
    }

    proof fn lemma_key_order(a: Seq<char>, b: Seq<char>, c: Seq<char>) {
        lemma_seq_lt_trichotomy(a, b);
        if seq_lt(a, b) && seq_lt(b, c) {
            lemma_seq_lt_transitive(a, b, c);
        }
    }

    fn key(&self) -> (k: String) {
        self.name.clone()
    }

    fn key_eq(a: &String, b: &String) -> (r: bool) {
        string_eq(a, b)
    }

    fn key_less(a: &String, b: &String) -> (r: bool) {
        string_lt(a, b)
    }

    fn key_copy(k: &String) -> (r: String) {
        k.clone()
    }
}

/// The configuration pushed to the clients of one group.
#[derive(Clone, Debug, PartialEq, Eq)]
pub struct ClientGroupDef {
    pub group_id: String,
    pub config_version: String,
    pub upstreams: Vec<ClientUpstreamDef>,
}

pub struct ClientGroupV {
    pub group_id: Seq<char>,
    pub config_version: Seq<char>,
    pub upstreams: Seq<ClientUpstreamV>,
}

impl View for ClientGroupDef {
    type V = ClientGroupV;

    open spec fn view(&self) -> ClientGroupV {
        ClientGroupV {
            group_id: self.group_id@,
            config_version: self.config_version@,
            upstreams: seq_view(self.upstreams@),
        }
    }
}

impl SameView for ClientGroupDef {
    fn same(&self, other: &Self) -> (r: bool) {
        string_eq(&self.group_id, &other.group_id) && string_eq(
            &self.config_version,
            &other.config_version,
        ) && vec_same(&self.upstreams, &other.upstreams)
    }

    fn duplicate(&self) -> (r: Self) {
        ClientGroupDef {
            group_id: self.group_id.clone(),
            config_version: self.config_version.clone(),
            upstreams: vec_duplicate(&self.upstreams),
        }
    }
}

impl Keyed for ClientGroupDef {
    type Key = String;

    open spec fn key_of(v: Self::V) -> Seq<char> {
        v.group_id
    }

    open spec fn key_lt(a: Seq<char>, b: Seq<char>) -> bool {
        seq_lt(a, b)
    }

    proof fn lemma_key_order(a: Seq<char>, b: Seq<char>, c: Seq<char>) {
        lemma_seq_lt_trichotomy(a, b);
        if seq_lt(a, b) && seq_lt(b, c) {
            lemma_seq_lt_transitive(a, b, c);
        }
    }

    fn key(&self) -> (k: String) {
        self.group_id.clone()
    }

    fn key_eq(a: &String, b: &String) -> (r: bool) {
        string_eq(a, b)
    }

    fn key_less(a: &String, b: &String) -> (r: bool) {
        string_lt(a, b)
    }

    fn key_copy(k: &String) -> (r: String) {
        k.clone()
    }
}

/// A server-side egress upstream.
#[derive(Clone, Debug, PartialEq, Eq)]
pub struct EgressUpstreamDef {
    pub name: String,
    pub lb_policy: String,
    pub servers: Vec<UpstreamServerDef>,
}

pub struct EgressUpstreamV {
    pub name: Seq<char>,
    pub lb_policy: Seq<char>,
    pub servers: Seq<UpstreamServerV>,
}

impl View for EgressUpstreamDef {
    type V = EgressUpstreamV;

    open spec fn view(&self) -> EgressUpstreamV {
        EgressUpstreamV {
            name: self.name@,
            lb_policy: self.lb_policy@,
            servers: seq_view(self.servers@),
        }
    }
}

impl SameView for EgressUpstreamDef {
    fn same(&self, other: &Self) -> (r: bool) {
        string_eq(&self.name, &other.name) && string_eq(&self.lb_policy, &other.lb_policy)
            && vec_same(&self.servers, &other.servers)
    }

    fn duplicate(&self) -> (r: Self) {
        EgressUpstreamDef {
            name: self.name.clone(),
            lb_policy: self.lb_policy.clone(),
            servers: vec_duplicate(&self.servers),
        }
    }
}

impl Keyed for EgressUpstreamDef {
    type Key = String;

    open spec fn key_of(v: Self::V) -> Seq<char> {
        v.name
    }

    open spec fn key_lt(a: Seq<char>, b: Seq<char>) -> bool {
        seq_lt(a, b)
    }

    proof fn lemma_key_order(a: Seq<char>, b: Seq<char>, c: Seq<char>) {
        lemma_seq_lt_trichotomy(a, b);
        if seq_lt(a, b) && seq_lt(b, c) {
            lemma_seq_lt_transitive(a, b, c);
        }
    }

    fn key(&self) -> (k: String) {
        self.name.clone()
    }

    fn key_eq(a: &String, b: &String) -> (r: bool) {
        string_eq(a, b)
    }

    fn key_less(a: &String, b: &String) -> (r: bool) {
        string_lt(a, b)
    }

    fn key_copy(k: &String) -> (r: String) {
        k.clone()
    }
}

/// A server-side egress rule: requests for `match_host` go to `action_upstream`.
#[derive(Clone, Debug, PartialEq, Eq)]
pub struct EgressVhostRuleDef {
    pub match_host: String,
    pub action_upstream: String,
}

pub struct EgressVhostRuleV {
    pub match_host: Seq<char>,
    pub action_upstream: Seq<char>,
}

impl View for EgressVhostRuleDef {
    type V = EgressVhostRuleV;

    open spec fn view(&self) -> EgressVhostRuleV {
        EgressVhostRuleV { match_host: self.match_host@, action_upstream: self.action_upstream@ }
    }
}

impl SameView for EgressVhostRuleDef {
    fn same(&self, other: &Self) -> (r: bool) {
        string_eq(&self.match_host, &other.match_host) && string_eq(
            &self.action_upstream,
            &other.action_upstream,
        )
    }

    fn duplicate(&self) -> (r: Self) {
        EgressVhostRuleDef {
            match_host: self.match_host.clone(),
            action_upstream: self.action_upstream.clone(),
        }
    }
}

impl Keyed for EgressVhostRuleDef {
    type Key = String;

    open spec fn key_of(v: Self::V) -> Seq<char> {
        v.match_host
    }

    open spec fn key_lt(a: Seq<char>, b: Seq<char>) -> bool {
        seq_lt(a, b)
    }

    proof fn lemma_key_order(a: Seq<char>, b: Seq<char>, c: Seq<char>) {
        lemma_seq_lt_trichotomy(a, b);
        if seq_lt(a, b) && seq_lt(b, c) {
            lemma_seq_lt_transitive(a, b, c);
        }
    }

    fn key(&self) -> (k: String) {
        self.match_host.clone()
    }

    fn key_eq(a: &String, b: &String) -> (r: bool) {
        string_eq(a, b)
    }

    fn key_less(a: &String, b: &String) -> (r: bool) {
        string_lt(a, b)
    }

    fn key_copy(k: &String) -> (r: String) {
        k.clone()
    }
}

/// An ingress virtual-host rule of an HTTP listener.
#[derive(Clone, Debug, PartialEq, Eq)]
pub struct IngressVhostRuleDef {
    pub match_host: String,
    pub group_id: String,
    pub proxy_name: String,
}

pub struct IngressVhostRuleV {
    pub match_host: Seq<char>,
    pub group_id: Seq<char>,
    pub proxy_name: Seq<char>,
}

impl View for IngressVhostRuleDef {
    type V = IngressVhostRuleV;

    open spec fn view(&self) -> IngressVhostRuleV {
        IngressVhostRuleV {
            match_host: self.match_host@,
            group_id: self.group_id@,
            proxy_name: self.proxy_name@,
        }
    }
}

impl SameView for IngressVhostRuleDef {
    fn same(&self, other: &Self) -> (r: bool) {
        string_eq(&self.match_host, &other.match_host) && string_eq(
            &self.group_id,
            &other.group_id,
        ) && string_eq(&self.proxy_name, &other.proxy_name)
    }

    fn duplicate(&self) -> (r: Self) {
        IngressVhostRuleDef {
            match_host: self.match_host.clone(),
            group_id: self.group_id.clone(),
            proxy_name: self.proxy_name.clone(),
        }
    }
}

/// The rules of an HTTP listener are ordered by host.
impl Keyed for IngressVhostRuleDef {
    type Key = String;

    open spec fn key_of(v: IngressVhostRuleV) -> Seq<char> {
        v.match_host
    }

    open spec fn key_lt(a: Seq<char>, b: Seq<char>) -> bool {
        seq_lt(a, b)
    }

    proof fn lemma_key_order(a: Seq<char>, b: Seq<char>, c: Seq<char>) {
        lemma_seq_lt_trichotomy(a, b);
        if seq_lt(a, b) && seq_lt(b, c) {
            lemma_seq_lt_transitive(a, b, c);
        }
    }

    fn key(&self) -> (k: String) {
        self.match_host.clone()
    }

    fn key_eq(a: &String, b: &String) -> (r: bool) {
        string_eq(a, b)
    }

    fn key_less(a: &String, b: &String) -> (r: bool) {
        string_lt(a, b)
    }

    fn key_copy(k: &String) -> (r: String) {
        k.clone()
    }
}

/// How an ingress listener dispatches: by HTTP host, or all of its TCP
/// connections to one proxy of one group.
#[derive(Clone, Debug, PartialEq, Eq)]
pub enum IngressListenerModeDef {
    Http { vhost: Vec<IngressVhostRuleDef> },
    Tcp { group_id: String, proxy_name: String },
}

pub enum IngressModeV {
    Http { vhost: Seq<IngressVhostRuleV> },
    Tcp { group_id: Seq<char>, proxy_name: Seq<char> },
}

impl View for IngressListenerModeDef {
    type V = IngressModeV;

    open spec fn view(&self) -> IngressModeV {
        match self {
            IngressListenerModeDef::Http { vhost } => IngressModeV::Http { vhost: seq_view(vhost@) },
            IngressListenerModeDef::Tcp { group_id, proxy_name } => IngressModeV::Tcp {
                group_id: group_id@,
                proxy_name: proxy_name@,
            },
        }
    }
}

impl SameView for IngressListenerModeDef {
    fn same(&self, other: &Self) -> (r: bool) {
        match (self, other) {
            (
                IngressListenerModeDef::Http { vhost: a },
                IngressListenerModeDef::Http { vhost: b },
            ) => vec_same(a, b),
            (
                IngressListenerModeDef::Tcp { group_id: g1, proxy_name: p1 },
                IngressListenerModeDef::Tcp { group_id: g2, proxy_name: p2 },
            ) => string_eq(g1, g2) && string_eq(p1, p2),
            _ => false,
        }
    }

    fn duplicate(&self) -> (r: Self) {
        match self {
            IngressListenerModeDef::Http { vhost } => IngressListenerModeDef::Http {
                vhost: vec_duplicate(vhost),
            },
            IngressListenerModeDef::Tcp { group_id, proxy_name } => IngressListenerModeDef::Tcp {
                group_id: group_id.clone(),
                proxy_name: proxy_name.clone(),
            },
        }
    }
}

/// An ingress listener: a public port and how it dispatches.
#[derive(Clone, Debug, PartialEq, Eq)]
pub struct IngressListenerDef {
    pub id: i64,
    pub port: u16,
    pub mode: IngressListenerModeDef,
}

pub struct IngressListenerV {
    pub id: i64,
    pub port: u16,
    pub mode: IngressModeV,
}

impl View for IngressListenerDef {
    type V = IngressListenerV;

    open spec fn view(&self) -> IngressListenerV {
        IngressListenerV { id: self.id, port: self.port, mode: self.mode@ }
    }
}

impl SameView for IngressListenerDef {
    fn same(&self, other: &Self) -> (r: bool) {
        self.id == other.id && self.port == other.port && self.mode.same(&other.mode)
    }

    fn duplicate(&self) -> (r: Self) {
        IngressListenerDef { id: self.id, port: self.port, mode: self.mode.duplicate() }
    }
}

impl Keyed for IngressListenerDef {
    type Key = u16;

    open spec fn key_of(v: IngressListenerV) -> u16 {
        v.port
    }

    open spec fn key_lt(a: u16, b: u16) -> bool {
        a < b
    }

    proof fn lemma_key_order(a: u16, b: u16, c: u16) {
    }

    fn key(&self) -> (k: u16) {
        self.port
    }

    fn key_eq(a: &u16, b: &u16) -> (r: bool) {
        *a == *b
    }

    fn key_less(a: &u16, b: &u16) -> (r: bool) {
        *a < *b
    }

    fn key_copy(k: &u16) -> (r: u16) {
        *k
    }
}

/// A token known to the data plane, by the hex SHA-256 of the raw token.
#[derive(Clone, Debug, PartialEq, Eq)]
pub struct TokenCacheEntryDef {
    pub hash_hex: String,
    pub client_group: String,
    pub client_status: ClientStatus,
    pub token_status: TokenStatus,
}

pub struct TokenCacheEntryV {
    pub hash_hex: Seq<char>,
    pub client_group: Seq<char>,
    pub client_status: ClientStatus,
    pub token_status: TokenStatus,
}

impl View for TokenCacheEntryDef {
    type V = TokenCacheEntryV;

    open spec fn view(&self) -> TokenCacheEntryV {
        TokenCacheEntryV {
            hash_hex: self.hash_hex@,
            client_group: self.client_group@,
            client_status: self.client_status,
            token_status: self.token_status,
        }
    }
}

impl SameView for TokenCacheEntryDef {
    fn same(&self, other: &Self) -> (r: bool) {
        string_eq(&self.hash_hex, &other.hash_hex) && string_eq(
            &self.client_group,
            &other.client_group,
        ) && self.client_status == other.client_status && self.token_status
            == other.token_status
    }

    fn duplicate(&self) -> (r: Self) {
        TokenCacheEntryDef {
            hash_hex: self.hash_hex.clone(),
            client_group: self.client_group.clone(),
            client_status: self.client_status,
            token_status: self.token_status,
        }
    }
}

impl Keyed for TokenCacheEntryDef {
    type Key = String;

    open spec fn key_of(v: Self::V) -> Seq<char> {
        v.hash_hex
    }

    open spec fn key_lt(a: Seq<char>, b: Seq<char>) -> bool {
        seq_lt(a, b)
    }

    proof fn lemma_key_order(a: Seq<char>, b: Seq<char>, c: Seq<char>) {
        lemma_seq_lt_trichotomy(a, b);
        if seq_lt(a, b) && seq_lt(b, c) {
            lemma_seq_lt_transitive(a, b, c);
        }
    }

    fn key(&self) -> (k: String) {
        self.hash_hex.clone()
    }

    fn key_eq(a: &String, b: &String) -> (r: bool) {
        string_eq(a, b)
    }

    fn key_less(a: &String, b: &String) -> (r: bool) {
        string_lt(a, b)
    }

    fn key_copy(k: &String) -> (r: String) {
        k.clone()
    }
}

} // verus!

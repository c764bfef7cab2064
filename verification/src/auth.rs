//! Token authentication against a cache of token digests, and the masking
//! of tokens in text that is logged.

use vstd::prelude::*;
use sha2::Digest;
use vstd::string::StringSliceAdditionalSpecFns;
use crate::model::{ClientStatus, TokenStatus};
use crate::text::{chars_of, push_str_chars, string_from_chars};

verus! {

/// The SHA-256 digest of `data`.
pub uninterp spec fn sha256_digest(data: Seq<u8>) -> Seq<u8>;

/// `sha2::Sha256::digest` of `data`; the contract names its result
/// `sha256_digest` and says nothing more about it.
#[verifier::external_body]
pub(crate) fn sha256(data: &[u8]) -> (r: [u8; 32])
    ensures
        r@ == sha256_digest(data@),
{
    sha2::Sha256::digest(data).into()
}

/// The lowercase hexadecimal digit for `n` (below sixteen).
pub open spec fn hex_digit(n: int) -> char {
    if n < 10 {
        (n + 48) as char
    } else {
        (n + 87) as char
    }
}

/// Two lowercase hexadecimal digits per byte, high nibble first.
pub open spec fn hex_lower(bytes: Seq<u8>) -> Seq<char>
    decreases bytes.len(),
{
    if bytes.len() == 0 {
        Seq::empty()
    } else {
        hex_lower(bytes.drop_last()) + seq![
            hex_digit(bytes.last() as int / 16),
            hex_digit(bytes.last() as int % 16),
        ]
    }
}

/// `hex::encode` of `data`: as its documentation states, two lowercase
/// hexadecimal digits per byte, high nibble first.
#[verifier::external_body]
pub(crate) fn hex_encode(data: &[u8]) -> (r: String)
    ensures
        r@ == hex_lower(data@),
{
    hex::encode(data)
}

pub proof fn lemma_hex_lower_len(bytes: Seq<u8>)
    ensures
        hex_lower(bytes).len() == 2 * bytes.len(),
    decreases bytes.len(),
{
    if bytes.len() > 0 {
        lemma_hex_lower_len(bytes.drop_last());
    }
}

/// The digest a token is cached under: SHA-256 of its UTF-8 bytes.
pub fn hash_token_bytes(raw_token: &str) -> (r: [u8; 32])
    ensures
        r@ == sha256_digest(raw_token.spec_bytes()),
{
    sha256(raw_token.as_bytes())
}

/// An authenticated client: its group and the digest of its token.
#[derive(Debug, Clone)]
pub struct AuthResult {
    pub client_group: String,
    pub token_hash: [u8; 32],
}

/// Why authentication failed.
pub enum AuthError {
    InvalidToken,
    TokenRevoked,
    ClientDisabled,
    Internal(String),
}

/// The kinds of authentication failure.
#[derive(Debug, Clone, Copy, PartialEq, Eq, Structural)]
pub enum AuthErrorKind {
    InvalidToken,
    TokenRevoked,
    ClientDisabled,
    Internal,
}

impl AuthError {
    /// The kind of failure.
    pub open spec fn kind(&self) -> AuthErrorKind {
        match self {
            AuthError::InvalidToken => AuthErrorKind::InvalidToken,
            AuthError::TokenRevoked => AuthErrorKind::TokenRevoked,
            AuthError::ClientDisabled => AuthErrorKind::ClientDisabled,
            AuthError::Internal(_) => AuthErrorKind::Internal,
        }
    }

    /// How a failed login is answered: an internal failure is retryable
    /// ("authentication unavailable"), any other is final ("authentication
    /// failed"). Returns whether the client may retry, and the message.
    pub fn login_failure(&self) -> (r: (bool, &'static str))
        ensures
            r.0 == (self.kind() == AuthErrorKind::Internal),
            r.1@ == (if self.kind() == AuthErrorKind::Internal {
                "authentication unavailable"@
            } else {
                "authentication failed"@
            }),
    {
        match self {
            AuthError::Internal(_) => (true, "authentication unavailable"),
            _ => (false, "authentication failed"),
        }
    }

    /// The message the error carries.
    pub fn message(&self) -> (r: String)
        ensures
            r@ == match self {
                AuthError::InvalidToken => "invalid token"@,
                AuthError::TokenRevoked => "token has been revoked"@,
                AuthError::ClientDisabled => "client is disabled"@,
                AuthError::Internal(e) => "internal error: "@ + e@,
            },
    {
        match self {
            AuthError::InvalidToken => "invalid token".to_owned(),
            AuthError::TokenRevoked => "token has been revoked".to_owned(),
            AuthError::ClientDisabled => "client is disabled".to_owned(),
            AuthError::Internal(e) => {
                let mut out: Vec<char> = Vec::new();
                push_str_chars(&mut out, "internal error: ");
                push_str_chars(&mut out, e.as_str());
                string_from_chars(out.as_slice())
            },
        }
    }

    /// The error as it is shown in diagnostics, with tokens in an internal
    /// error's text masked.
    pub fn debug_text(&self) -> (r: String)
        ensures
            r@ == match self {
                AuthError::InvalidToken => "InvalidToken"@,
                AuthError::TokenRevoked => "TokenRevoked"@,
                AuthError::ClientDisabled => "ClientDisabled"@,
                AuthError::Internal(e) => "Internal(\""@ + masked(e@) + "\")"@,
            },
    {
        match self {
            AuthError::InvalidToken => "InvalidToken".to_owned(),
            AuthError::TokenRevoked => "TokenRevoked".to_owned(),
            AuthError::ClientDisabled => "ClientDisabled".to_owned(),
            AuthError::Internal(e) => {
                let m = mask_token_in_str(e.as_str());
                let mut out: Vec<char> = Vec::new();
                push_str_chars(&mut out, "Internal(\"");
                push_str_chars(&mut out, m.as_str());
                push_str_chars(&mut out, "\")");
                string_from_chars(out.as_slice())
            },
        }
    }
}

/// A cached token: the group of its client and the statuses that decide
/// whether it may log in.
#[derive(Debug, Clone)]
pub struct CacheEntry {
    pub client_group: String,
    pub client_status: ClientStatus,
    pub token_status: TokenStatus,
}

pub struct CacheEntryV {
    pub client_group: Seq<char>,
    pub client_status: ClientStatus,
    pub token_status: TokenStatus,
}

impl View for CacheEntry {
    type V = CacheEntryV;

    open spec fn view(&self) -> CacheEntryV {
        CacheEntryV {
            client_group: self.client_group@,
            client_status: self.client_status,
            token_status: self.token_status,
        }
    }
}

/// Cached tokens by digest, each digest once.
pub struct TokenMap {
    keys: Vec<[u8; 32]>,
    entries: Vec<CacheEntry>,
}

/// Which digests are cached, and under each its entry.
pub open spec fn token_map_view(keys: Seq<[u8; 32]>, entries: Seq<CacheEntry>) -> Map<
    Seq<u8>,
    CacheEntryV,
> {
    Map::new(
        |k: Seq<u8>| exists|i: int| 0 <= i < keys.len() && (#[trigger] keys[i])@ == k,
        |k: Seq<u8>| entries[choose|i: int| 0 <= i < keys.len() && (#[trigger] keys[i])@ == k]@,
    )
}

pub open spec fn digests_unique(keys: Seq<[u8; 32]>) -> bool {
    forall|i: int, j: int| 0 <= i < j < keys.len() ==> (#[trigger] keys[i])@ != (#[trigger] keys[j])@
}

proof fn lemma_token_map_at(keys: Seq<[u8; 32]>, entries: Seq<CacheEntry>, i: int)
    requires
        digests_unique(keys),
        0 <= i < keys.len(),
    ensures
        token_map_view(keys, entries).dom().contains(keys[i]@),
        token_map_view(keys, entries)[keys[i]@] == entries[i]@,
{
    let k = keys[i]@;
    assert(keys[i]@ == k);
    let j = choose|j: int| 0 <= j < keys.len() && (#[trigger] keys[j])@ == k;
    if j < i {
        assert(keys[j]@ != keys[i]@);
    } else if j > i {
        assert(keys[i]@ != keys[j]@);
    }
}

fn digest_eq(a: &[u8; 32], b: &[u8; 32]) -> (r: bool)
    ensures
        r == (a@ == b@),
{
    let mut i: usize = 0;
    while i < 32
        invariant
            i <= 32,
            a@.len() == 32,
            b@.len() == 32,
            forall|j: int| 0 <= j < i ==> a@[j] == b@[j],
        decreases 32 - i,
    {
        if a[i] != b[i] {
            return false;
        }
        i = i + 1;
    }
    assert(a@ =~= b@);
    true
}

impl View for TokenMap {
    type V = Map<Seq<u8>, CacheEntryV>;

    closed spec fn view(&self) -> Map<Seq<u8>, CacheEntryV> {
        token_map_view(self.keys@, self.entries@)
    }
}

impl TokenMap {
    /// The internal invariant: one entry per distinct digest.
    pub closed spec fn wf(&self) -> bool {
        &&& self.keys@.len() == self.entries@.len()
        &&& digests_unique(self.keys@)
    }

    /// An empty cache.
    pub fn new() -> (r: Self)
        ensures
            r.wf(),
            r@ == Map::<Seq<u8>, CacheEntryV>::empty(),
    {
        let r = TokenMap { keys: Vec::new(), entries: Vec::new() };
        assert(r@ =~= Map::<Seq<u8>, CacheEntryV>::empty());
        r
    }

    fn find(&self, key: &[u8; 32]) -> (r: Option<usize>)
        requires
            self.wf(),
        ensures
            match r {
                Some(i) => i < self.keys@.len() && self.keys@[i as int]@ == key@,
                None => !self@.dom().contains(key@),
            },
    {
        let mut i: usize = 0;
        while i < self.keys.len()
            invariant
                self.wf(),
                i <= self.keys@.len(),
                forall|j: int| 0 <= j < i ==> (#[trigger] self.keys@[j])@ != key@,
            decreases self.keys@.len() - i,
        {
            if digest_eq(&self.keys[i], key) {
                return Some(i);
            }
            i = i + 1;
        }
        None
    }

    /// The entry cached under `key`.
    pub fn get(&self, key: &[u8; 32]) -> (r: Option<&CacheEntry>)
        requires
            self.wf(),
        ensures
            match r {
                Some(e) => self@.dom().contains(key@) && self@[key@] == e@,
                None => !self@.dom().contains(key@),
            },
    {
        match self.find(key) {
            Some(i) => {
                proof {
                    lemma_token_map_at(self.keys@, self.entries@, i as int);
                }
                Some(&self.entries[i])
            },
            None => None,
        }
    }

    /// Caches `entry` under `key`, replacing what was cached under it.
    pub fn insert(&mut self, key: [u8; 32], entry: CacheEntry)
        requires
            old(self).wf(),
        ensures
            final(self).wf(),
            final(self)@ == old(self)@.insert(key@, entry@),
    {
        let ghost before = self@;
        match self.find(&key) {
            Some(i) => {
                let ghost ev = entry@;
                proof {
                    lemma_token_map_at(self.keys@, self.entries@, i as int);
                }
                self.entries.set(i, entry);
                proof {
                    let a = self@;
                    let b = before.insert(key@, ev);
                    assert forall|k: Seq<u8>| #[trigger] a.dom().contains(k) implies a[k] == b[k] by {
                        let j = choose|j: int| 0 <= j < self.keys@.len() && (#[trigger] self.keys@[j])@ == k;
                        lemma_token_map_at(self.keys@, self.entries@, j);
                        lemma_token_map_at(self.keys@, old(self).entries@, j);
                        if j != i {
                            if j < i {
                                assert(self.keys@[j]@ != self.keys@[i as int]@);
                            } else {
                                assert(self.keys@[i as int]@ != self.keys@[j]@);
                            }
                        }
                    }
                    assert(a =~= b);
                }
            },
            None => {
                let ghost kv = key@;
                let ghost ev = entry@;
                let ghost ok = self.keys@;
                let ghost oe = self.entries@;
                self.keys.push(key);
                self.entries.push(entry);
                proof {
                    assert forall|i: int, j: int| 0 <= i < j < self.keys@.len() implies (
                    #[trigger] self.keys@[i])@ != (#[trigger] self.keys@[j])@ by {
                        if j == ok.len() {
                            assert(ok[i]@ == self.keys@[i]@);
                        } else {
                            assert(ok[i]@ != ok[j]@);
                        }
                    }
                    let a = self@;
                    let b = before.insert(kv, ev);
                    assert forall|k: Seq<u8>| #[trigger] a.dom().contains(k) <==> b.dom().contains(k) by {
                        if a.dom().contains(k) {
                            let j = choose|j: int| 0 <= j < self.keys@.len() && (#[trigger] self.keys@[j])@ == k;
                            if j < ok.len() {
                                assert(ok[j]@ == k);
                            }
                        }
                        if before.dom().contains(k) {
                            let j = choose|j: int| 0 <= j < ok.len() && (#[trigger] ok[j])@ == k;
                            assert(self.keys@[j]@ == k);
                        }
                        if k == kv {
                            assert(self.keys@[ok.len() as int]@ == k);
                        }
                    }
                    assert forall|k: Seq<u8>| #[trigger] a.dom().contains(k) implies a[k] == b[k] by {
                        let j = choose|j: int| 0 <= j < self.keys@.len() && (#[trigger] self.keys@[j])@ == k;
                        lemma_token_map_at(self.keys@, self.entries@, j);
                        if j < ok.len() {
                            lemma_token_map_at(ok, oe, j);
                        }
                    }
                    assert(a =~= b);
                }
            },
        }
    }
}

/// The outcome of authenticating the token with digest `key`: unknown
/// tokens are invalid, a disabled client is refused before a revoked token,
/// and otherwise the client's group is returned.
pub open spec fn auth_outcome(cache: Map<Seq<u8>, CacheEntryV>, key: Seq<u8>) -> Result<
    Seq<char>,
    AuthErrorKind,
> {
    if !cache.dom().contains(key) {
        Err(AuthErrorKind::InvalidToken)
    } else if cache[key].client_status != ClientStatus::Active {
        Err(AuthErrorKind::ClientDisabled)
    } else if cache[key].token_status != TokenStatus::Active {
        Err(AuthErrorKind::TokenRevoked)
    } else {
        Ok(cache[key].client_group)
    }
}

/// Authenticates the token whose digest is `key`.
pub fn authenticate_digest(map: &TokenMap, key: [u8; 32]) -> (r: Result<AuthResult, AuthError>)
    requires
        map.wf(),
    ensures
        match r {
            Ok(a) => auth_outcome(map@, key@) == Ok::<Seq<char>, AuthErrorKind>(a.client_group@)
                && a.token_hash@ == key@,
            Err(e) => auth_outcome(map@, key@) == Err::<Seq<char>, AuthErrorKind>(e.kind()),
        },
{
    match map.get(&key) {
        None => Err(AuthError::InvalidToken),
        Some(entry) => {
            if entry.client_status != ClientStatus::Active {
                return Err(AuthError::ClientDisabled);
            }
            if entry.token_status != TokenStatus::Active {
                return Err(AuthError::TokenRevoked);
            }
            Ok(AuthResult { client_group: entry.client_group.clone(), token_hash: key })
        },
    }
}

/// Authenticates `raw_token` against the cache of token digests.
pub fn authenticate(map: &TokenMap, raw_token: &str) -> (r: Result<AuthResult, AuthError>)
    requires
        map.wf(),
    ensures
        match r {
            Ok(a) => auth_outcome(map@, sha256_digest(raw_token.spec_bytes())) == Ok::<
                Seq<char>,
                AuthErrorKind,
            >(a.client_group@) && a.token_hash@ == sha256_digest(raw_token.spec_bytes()),
            Err(e) => auth_outcome(map@, sha256_digest(raw_token.spec_bytes())) == Err::<
                Seq<char>,
                AuthErrorKind,
            >(e.kind()),
        },
{
    let key = hash_token_bytes(raw_token);
    authenticate_digest(map, key)
}

/// Characters a token is made of after its `dt_` prefix.
pub open spec fn is_token_char(c: char) -> bool {
    ||| ('a' <= c && c <= 'z')
    ||| ('A' <= c && c <= 'Z')
    ||| ('0' <= c && c <= '9')
    ||| c == '-'
    ||| c == '_'
}

/// The end of the run of token characters of `s` that starts at `j`.
pub open spec fn token_end(s: Seq<char>, j: int) -> int
    decreases s.len() - j,
{
    if j < 0 || j >= s.len() || !is_token_char(s[j]) {
        j
    } else {
        token_end(s, j + 1)
    }
}

pub proof fn lemma_token_end(s: Seq<char>, j: int)
    requires
        0 <= j <= s.len(),
    ensures
        j <= token_end(s, j) <= s.len(),
        forall|k: int| j <= k < token_end(s, j) ==> is_token_char(#[trigger] s[k]),
        token_end(s, j) < s.len() ==> !is_token_char(s[token_end(s, j)]),
    decreases s.len() - j,
{
    if j < s.len() && is_token_char(s[j]) {
        lemma_token_end(s, j + 1);
    }
}

/// The bytes of characters below 128.
pub open spec fn ascii_bytes(s: Seq<char>) -> Seq<u8> {
    s.map_values(|c: char| c as u8)
}

/// Whether a token (`dt_` and its run of token characters) starts at `i`.
pub open spec fn token_starts(s: Seq<char>, i: int) -> bool {
    0 <= i && i + 3 <= s.len() && s[i] == 'd' && s[i + 1] == 't' && s[i + 2] == '_'
}

/// `s` from `i` on with every token of at least ten characters replaced by
/// `dt_masked_` and the first eight hexadecimal digits of its SHA-256 digest.
pub open spec fn masked_from(s: Seq<char>, i: int) -> Seq<char>
    decreases s.len() - i,
{
    if i < 0 || i >= s.len() {
        Seq::empty()
    } else if token_starts(s, i) {
        let e = token_end(s, i + 3);
        proof {
            lemma_token_end(s, i + 3);
        }
        if e - i >= 10 {
            "dt_masked_"@ + hex_lower(sha256_digest(ascii_bytes(s.subrange(i, e)))).take(8)
                + masked_from(s, e)
        } else {
            s.subrange(i, e) + masked_from(s, e)
        }
    } else {
        seq![s[i]] + masked_from(s, i + 1)
    }
}

/// `s` with its tokens masked.
pub open spec fn masked(s: Seq<char>) -> Seq<char> {
    masked_from(s, 0)
}

fn is_token_char_exec(c: char) -> (r: bool)
    ensures
        r == is_token_char(c),
{
    ('a' <= c && c <= 'z') || ('A' <= c && c <= 'Z') || ('0' <= c && c <= '9') || c == '-' || c
        == '_'
}

/// Replaces every token of at least ten characters in `input` (`dt_`
/// followed by letters, digits, `-` and `_`) by `dt_masked_` and the first
/// eight hexadecimal digits of its SHA-256 digest, so that logs never hold a
/// token.
pub fn mask_token_in_str(input: &str) -> (r: String)
    ensures
        r@ == masked(input@),
{
    let chars = chars_of(input);
    let ghost s = chars@;
    let mut out: Vec<char> = Vec::new();
    let mut index: usize = 0;
    while index < chars.len()
        invariant
            s == chars@,
            s == input@,
            index <= s.len(),
            masked(s) == out@ + masked_from(s, index as int),
        decreases s.len() - index,
    {
        let ghost before = out@;
        if chars.len() - index >= 3 && chars[index] == 'd' && chars[index + 1] == 't' && chars[index
            + 2] == '_' {
            let start = index;
            index = index + 3;
            while index < chars.len() && is_token_char_exec(chars[index])
                invariant
                    s == chars@,
                    start + 3 <= index <= s.len(),
                    token_end(s, start + 3) == token_end(s, index as int),
                decreases s.len() - index,
            {
                index = index + 1;
            }
            proof {
                lemma_token_end(s, start + 3);
                assert(token_end(s, index as int) == index);
            }
            if index - start >= 10 {
                let mut bytes: Vec<u8> = Vec::new();
                let mut k: usize = start;
                while k < index
                    invariant
                        s == chars@,
                        start <= k <= index <= s.len(),
                        bytes@ == ascii_bytes(s.subrange(start as int, k as int)),
                    decreases index - k,
                {
                    bytes.push(chars[k] as u8);
                    assert(ascii_bytes(s.subrange(start as int, k + 1)) =~= ascii_bytes(
                        s.subrange(start as int, k as int),
                    ).push(s[k as int] as u8));
                    k = k + 1;
                }
                let digest = sha256(bytes.as_slice());
                let hex = hex_encode(&digest);
                let hc = chars_of(hex.as_str());
                proof {
                    lemma_hex_lower_len(digest@);
                }
                push_str_chars(&mut out, "dt_masked_");
                let ghost mid = out@;
                let mut k: usize = 0;
                while k < 8
                    invariant
                        hc@.len() == 64,
                        k <= 8,
                        out@ == mid + hc@.take(k as int),
                    decreases 8 - k,
                {
                    out.push(hc[k]);
                    assert(hc@.take(k + 1) =~= hc@.take(k as int).push(hc@[k as int]));
                    k = k + 1;
                }
                assert(out@ =~= before + ("dt_masked_"@ + hex_lower(
                    sha256_digest(ascii_bytes(s.subrange(start as int, index as int))),
                ).take(8)));
            } else {
                let mut k: usize = start;
                while k < index
                    invariant
                        s == chars@,
                        start <= k <= index <= s.len(),
                        out@ == before + s.subrange(start as int, k as int),
                    decreases index - k,
                {
                    out.push(chars[k]);
                    assert(s.subrange(start as int, k + 1) =~= s.subrange(start as int, k as int).push(
                        s[k as int],
                    ));
                    k = k + 1;
                }
            }
            assert(token_starts(s, start as int));
            assert(masked(s) =~= out@ + masked_from(s, index as int));
        } else {
            out.push(chars[index]);
            assert(!token_starts(s, index as int));
            index = index + 1;
            assert(masked(s) =~= out@ + masked_from(s, index as int));
        }
    }
    assert(masked_from(s, index as int) =~= Seq::<char>::empty());
    assert(out@ =~= masked(s));
    string_from_chars(out.as_slice())
}

} // verus!

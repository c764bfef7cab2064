use duotunnel::auth::{
    authenticate, hash_token_bytes, mask_token_in_str, AuthError, CacheEntry, TokenMap,
};
use duotunnel::model::{ClientStatus, TokenStatus};

fn entry(group: &str, client: ClientStatus, token: TokenStatus) -> CacheEntry {
    CacheEntry { client_group: group.to_string(), client_status: client, token_status: token }
}

#[test]
fn token_digest_is_sha256_of_the_token() {
    let d = hash_token_bytes("abc");
    assert_eq!(
        d[..4],
        [0xba, 0x78, 0x16, 0xbf]
    );
    assert_eq!(d[31], 0xad);
}

#[test]
fn authenticate_distinguishes_each_outcome() {
    let mut map = TokenMap::new();
    map.insert(hash_token_bytes("dt_good_token"), entry("g", ClientStatus::Active, TokenStatus::Active));
    map.insert(hash_token_bytes("dt_disabled"), entry("g", ClientStatus::Disabled, TokenStatus::Revoked));
    map.insert(hash_token_bytes("dt_revoked"), entry("g", ClientStatus::Active, TokenStatus::Revoked));

    let ok = authenticate(&map, "dt_good_token").ok().expect("authenticated");
    assert_eq!(ok.client_group, "g");
    assert_eq!(ok.token_hash, hash_token_bytes("dt_good_token"));

    assert!(matches!(authenticate(&map, "dt_unknown"), Err(AuthError::InvalidToken)));
    assert!(matches!(authenticate(&map, "dt_disabled"), Err(AuthError::ClientDisabled)));
    assert!(matches!(authenticate(&map, "dt_revoked"), Err(AuthError::TokenRevoked)));
}

#[test]
fn later_insert_replaces_cached_entry() {
    let mut map = TokenMap::new();
    map.insert(hash_token_bytes("t"), entry("a", ClientStatus::Active, TokenStatus::Active));
    map.insert(hash_token_bytes("t"), entry("b", ClientStatus::Active, TokenStatus::Active));
    assert_eq!(map.get(&hash_token_bytes("t")).unwrap().client_group, "b");
    assert!(map.get(&hash_token_bytes("u")).is_none());
}

#[test]
fn auth_error_messages() {
    assert_eq!(AuthError::InvalidToken.message(), "invalid token");
    assert_eq!(AuthError::TokenRevoked.message(), "token has been revoked");
    assert_eq!(AuthError::ClientDisabled.message(), "client is disabled");
    assert_eq!(AuthError::Internal("boom".into()).message(), "internal error: boom");
    assert_eq!(AuthError::InvalidToken.debug_text(), "InvalidToken");
}

#[test]
fn long_tokens_are_masked_and_short_ones_kept() {
    let d = hash_token_bytes("dt_abcdefghij");
    let expected = format!(
        "failed for dt_masked_{:02x}{:02x}{:02x}{:02x} now",
        d[0], d[1], d[2], d[3]
    );
    assert_eq!(mask_token_in_str("failed for dt_abcdefghij now"), expected);
    assert_eq!(mask_token_in_str("dt_short x"), "dt_short x");
    assert_eq!(mask_token_in_str("no tokens"), "no tokens");
    assert_eq!(
        AuthError::Internal("dt_short".into()).debug_text(),
        "Internal(\"dt_short\")"
    );
}

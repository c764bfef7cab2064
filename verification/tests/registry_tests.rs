use duotunnel::registry::{stream_limits, ClientRegistry};

fn hash(b: u8) -> [u8; 32] {
    [b; 32]
}

#[test]
fn register_assigns_shards_in_turn_and_refuses_duplicates() {
    let mut reg = ClientRegistry::new(2);
    assert_eq!(reg.register("c1", "g", hash(1), true), Ok(0));
    assert_eq!(reg.register("c2", "g", hash(2), true), Ok(1));
    assert_eq!(reg.register("c3", "h", hash(3), true), Ok(0));
    assert_eq!(reg.register("c1", "h", hash(9), true), Err("client id already registered"));
    assert_eq!(reg.register("c4", "g", hash(4), false), Err("connection state capacity exhausted"));
    assert_eq!(reg.len(), 3);
    assert_eq!(reg.client_group("c1"), Some(("g".to_string(), 0)));
    assert_eq!(reg.client_group("c3"), Some(("h".to_string(), 0)));
    assert_eq!(reg.client_group("c4"), None);
}

#[test]
fn zero_shards_means_one() {
    let mut reg = ClientRegistry::new(0);
    assert_eq!(reg.register("a", "g", hash(1), true), Ok(0));
    assert_eq!(reg.register("b", "g", hash(1), true), Ok(0));
}

#[test]
fn unregister_and_purge() {
    let mut reg = ClientRegistry::new(1);
    for id in ["a", "b", "c", "d"] {
        reg.register(id, "g", hash(1), true).unwrap();
    }
    assert!(reg.unregister("b"));
    assert!(!reg.unregister("b"));
    assert_eq!(reg.client_group("b"), None);
    assert_eq!(reg.purge_dead(&["a".to_string(), "x".to_string()]), Ok(1));
    assert_eq!(reg.len(), 2);
    assert_eq!(reg.client_group("a"), None);
    assert_eq!(reg.client_group("c"), Some(("g".to_string(), 0)));
    assert_eq!(reg.purge_dead(&[]), Ok(0));
}

#[test]
fn revoke_retires_each_connection_once() {
    let mut reg = ClientRegistry::new(4);
    reg.register("a", "g", hash(1), true).unwrap();
    reg.register("b", "g", hash(2), true).unwrap();
    reg.register("c", "h", hash(1), true).unwrap();
    assert_eq!(reg.revoke_tokens(&[]), Ok(0));
    assert_eq!(reg.revoke_tokens(&[hash(1)]), Ok(2));
    assert_eq!(reg.revoke_tokens(&[hash(1)]), Ok(0));
    assert_eq!(reg.revoke_tokens(&[hash(1), hash(2)]), Ok(1));
    // Revoked connections stay registered until they close.
    assert_eq!(reg.len(), 3);
}

#[test]
fn failed_registry_refuses_everything() {
    let mut reg = ClientRegistry::new(1);
    reg.register("a", "g", hash(1), true).unwrap();
    reg.fail_closed();
    assert_eq!(reg.len(), 0);
    assert_eq!(reg.register("b", "g", hash(1), true), Err("registry unavailable"));
    assert_eq!(reg.purge_dead(&[]), Err("registry unavailable"));
    assert_eq!(reg.revoke_tokens(&[hash(1)]), Err("registry unavailable"));
    assert_eq!(reg.revoke_tokens(&[]), Ok(0));
    assert!(!reg.unregister("a"));
}

#[test]
fn connection_stream_limits() {
    assert_eq!(stream_limits(1000, 250), (1000, 250));
    assert_eq!(stream_limits(0, 0), (1, 1));
    assert_eq!(stream_limits(10, 50), (10, 10));
}

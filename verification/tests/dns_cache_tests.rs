use duotunnel::dns_cache::{
    DnsEntry, EgressDnsCache, InflightOutcome, LookupOutcome, ResolveStep,
    DNS_FAILURE_STALE_BACKOFF_NS,
};

type Addr = (&'static str, u16);

const SEC: u64 = 1_000_000_000;

#[test]
fn test_dns_entry_round_robin() {
    let mut entry: DnsEntry<Addr> =
        DnsEntry::new(vec![("127.0.0.1", 80), ("127.0.0.2", 80)], 10 * SEC);

    assert_eq!(entry.next_addr().unwrap().0, "127.0.0.1");
    assert_eq!(entry.next_addr().unwrap().0, "127.0.0.2");
    assert_eq!(entry.next_addr().unwrap().0, "127.0.0.1");
}

#[test]
fn empty_entry_hands_out_nothing() {
    let mut entry: DnsEntry<Addr> = DnsEntry::new(vec![], 10 * SEC);
    assert_eq!(entry.next_addr(), None);
}

#[test]
fn lookup_is_served_from_cache_until_it_expires() {
    let mut cache: EgressDnsCache<Addr> = EgressDnsCache::new(50);
    assert_eq!(cache.get_fresh("localhost", 80, 0), None);
    let told = cache.finish_lookup(
        "localhost",
        80,
        100,
        LookupOutcome::Resolved(vec![("127.0.0.1", 80), ("::1", 80)]),
    );
    assert_eq!(told, Ok(vec![("127.0.0.1", 80), ("::1", 80)]));
    assert_eq!(cache.get_fresh("localhost", 80, 120), Some(("127.0.0.1", 80)));
    assert_eq!(cache.get_fresh("localhost", 80, 149), Some(("::1", 80)));
    // Expired: no fresh answer, but the stale entry still serves a fallback.
    assert_eq!(cache.get_fresh("localhost", 80, 150), None);
    assert_eq!(cache.get_stale("localhost", 80), Some(("127.0.0.1", 80)));
    // Another port is another entry.
    assert_eq!(cache.get_stale("localhost", 81), None);
}

#[test]
fn a_new_lookup_replaces_the_addresses() {
    let mut cache: EgressDnsCache<Addr> = EgressDnsCache::new(50);
    let _ = cache.finish_lookup("h", 1, 0, LookupOutcome::Resolved(vec![("a", 1), ("b", 1)]));
    assert_eq!(cache.get_fresh("h", 1, 1), Some(("a", 1)));
    let _ = cache.finish_lookup("h", 1, 60, LookupOutcome::Resolved(vec![("c", 1)]));
    assert_eq!(cache.get_fresh("h", 1, 61), Some(("c", 1)));
    assert_eq!(cache.get_fresh("h", 1, 62), Some(("c", 1)));
}

#[test]
fn failed_refresh_keeps_stale_addresses_for_the_backoff() {
    let mut cache: EgressDnsCache<Addr> = EgressDnsCache::new(50);
    let _ = cache.finish_lookup("h", 443, 0, LookupOutcome::Resolved(vec![("a", 443)]));
    assert_eq!(cache.get_fresh("h", 443, 60), None);
    let told = cache.finish_lookup("h", 443, 60, LookupOutcome::Failed("nxdomain".into()));
    assert_eq!(told, Err("nxdomain".to_string()));
    assert_eq!(cache.get_fresh("h", 443, 61), Some(("a", 443)));
    assert_eq!(
        cache.get_fresh("h", 443, 60 + DNS_FAILURE_STALE_BACKOFF_NS - 1),
        Some(("a", 443))
    );
    assert_eq!(cache.get_fresh("h", 443, 60 + DNS_FAILURE_STALE_BACKOFF_NS), None);
}

#[test]
fn lookup_failures_are_reported() {
    let mut cache: EgressDnsCache<Addr> = EgressDnsCache::new(50);
    assert_eq!(
        cache.finish_lookup("h", 1, 0, LookupOutcome::Resolved(vec![])),
        Err("lookup returned empty address list".to_string())
    );
    assert_eq!(
        cache.finish_lookup("h", 1, 0, LookupOutcome::TimedOut),
        Err("DNS resolution timed out".to_string())
    );
    // A failure with nothing cached leaves nothing cached.
    assert_eq!(cache.get_stale("h", 1), None);
}

#[test]
fn waiters_prefer_the_cache_then_the_report() {
    let mut cache: EgressDnsCache<Addr> = EgressDnsCache::new(50);
    assert_eq!(
        cache.finish_wait("h", 8080, InflightOutcome::Reported(Ok(vec![("x", 8080)]))),
        Ok(("x", 8080))
    );
    assert_eq!(
        cache.finish_wait("h", 8080, InflightOutcome::Reported(Ok(vec![]))),
        Err("no resolved IP for h:8080".to_string())
    );
    assert_eq!(
        cache.finish_wait("h", 8080, InflightOutcome::Reported(Err("boom".into()))),
        Err("DNS lookup failed: boom".to_string())
    );
    assert_eq!(
        cache.finish_wait("h", 8080, InflightOutcome::ChannelFailed("lagged".into())),
        Err("DNS lookup channel failed for h:8080: lagged".to_string())
    );
    assert_eq!(
        cache.finish_wait("h", 8080, InflightOutcome::TimedOut),
        Err("DNS lookup did not complete for h:8080".to_string())
    );
    let _ = cache.finish_lookup("h", 8080, 0, LookupOutcome::Resolved(vec![("c", 8080)]));
    assert_eq!(cache.finish_wait("h", 8080, InflightOutcome::TimedOut), Ok(("c", 8080)));
    assert_eq!(
        cache.finish_wait("h", 8080, InflightOutcome::Reported(Ok(vec![("x", 8080)]))),
        Ok(("c", 8080))
    );
}

#[test]
fn resolve_steps() {
    let mut cache: EgressDnsCache<Addr> = EgressDnsCache::new(50);
    assert!(matches!(cache.resolve("h", 1, 0, false), ResolveStep::StartLookup));
    assert!(matches!(cache.resolve("h", 1, 0, true), ResolveStep::AwaitInflight));
    let _ = cache.finish_lookup("h", 1, 0, LookupOutcome::Resolved(vec![("a", 1)]));
    assert!(matches!(cache.resolve("h", 1, 10, false), ResolveStep::Cached(("a", 1))));
    assert!(matches!(cache.resolve("h", 1, 50, true), ResolveStep::AwaitInflight));
}

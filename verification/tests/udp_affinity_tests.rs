use duotunnel::udp_affinity::{
    sweep_due, UdpAffinityTable, UdpClientKey, UdpListenerRegistry,
    MAX_UDP_AFFINITIES_PER_LISTENER, UDP_AFFINITY_IDLE_TIMEOUT_NS,
};

fn client(port: u16) -> UdpClientKey {
    UdpClientKey { v6: false, addr: 0x7f00_0001, port }
}

#[test]
fn affinity_sticks_until_removed() {
    let mut t = UdpAffinityTable::new();
    assert_eq!(t.get(client(1)), None);
    t.record(client(1), 7, 100);
    assert_eq!(t.get(client(1)), Some(7));
    t.record(client(1), 9, 200);
    assert_eq!(t.get(client(1)), Some(9));
    assert_eq!(t.len(), 1);
    t.touch(client(1), 300);
    t.remove(client(1));
    assert_eq!(t.get(client(1)), None);
    assert_eq!(t.len(), 0);
}

#[test]
fn full_table_evicts_the_entry_seen_longest_ago() {
    let mut t = UdpAffinityTable::new();
    for p in 0..MAX_UDP_AFFINITIES_PER_LISTENER {
        t.record(client(p as u16), 1, 1_000 + p as u64);
    }
    t.touch(client(0), 10_000_000);
    t.record(client(60_000), 2, 20_000_000);
    assert_eq!(t.len(), MAX_UDP_AFFINITIES_PER_LISTENER);
    assert_eq!(t.get(client(1)), None);
    assert_eq!(t.get(client(0)), Some(1));
    assert_eq!(t.get(client(60_000)), Some(2));
}

#[test]
fn sweep_drops_idle_and_orphaned_entries() {
    let mut t = UdpAffinityTable::new();
    t.record(client(1), 1, 0);
    t.record(client(2), 2, 0);
    t.record(client(3), 1, UDP_AFFINITY_IDLE_TIMEOUT_NS);
    t.sweep(UDP_AFFINITY_IDLE_TIMEOUT_NS, &[1]);
    assert_eq!(t.get(client(1)), None);
    assert_eq!(t.get(client(2)), None);
    assert_eq!(t.get(client(3)), Some(1));
    assert!(sweep_due(256));
    assert!(sweep_due(0));
    assert!(!sweep_due(255));
}

#[test]
fn udp_replies_go_out_through_the_named_listener() {
    let mut r: UdpListenerRegistry<u32> = UdpListenerRegistry::new();
    assert_eq!(r.socket_for("dns"), Err("no udp listener for dns".to_string()));
    r.register("dns", 1);
    r.register("game", 2);
    r.register("dns", 3);
    assert_eq!(r.socket_for("dns"), Ok(&3));
    assert_eq!(r.socket_for("game"), Ok(&2));
}

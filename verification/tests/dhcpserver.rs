//! The DHCP server: pools, the lease file and what `show` reports of them.

use hemlock::dhcpserver::{
    leases_fit, parse_lease_line, snapshot_from, without_lease, Config, Engine, Pool, LEASE_FILE,
};
use hemlock::ip::Ipv4;
use hemlock::ordmap::OrdMap;

fn pool() -> Pool {
    let mut reservations: OrdMap<String, Ipv4> = OrdMap::new();
    reservations.insert("00:1c:73:0c:aa:01".to_string(), Ipv4::new(10, 0, 10, 50));
    Pool {
        name: "LAN-USERS".into(),
        network: "10.0.10.0/24".into(),
        range_start: Ipv4::new(10, 0, 10, 100),
        range_end: Ipv4::new(10, 0, 10, 200),
        gateway: Ipv4::new(10, 0, 10, 1),
        dns_servers: vec![Ipv4::new(10, 42, 0, 5)],
        lease_time: 86400,
        domain_name: String::new(),
        reservations,
    }
}

fn config() -> Config {
    Config {
        pools: vec![pool()],
        lease_file: "/nonexistent".into(),
    }
}

fn in_use(snapshot: &hemlock::dhcpserver::Snapshot) -> u32 {
    *snapshot.in_use.get(&"LAN-USERS".to_string()).unwrap()
}

const LEASES: &str = "\
1787000047 00:1c:73:0c:aa:02 10.0.10.101 laptop-jchen 01:00:1c:73:0c:aa:02
1786993364 a0:36:9f:44:be:02 10.0.10.102 voip-2214 *
1786993364 00:50:56:be:ef:09 10.0.10.103 * *
";

#[test]
fn lease_lines_parse() {
    let lease = parse_lease_line(LEASES.lines().next().unwrap()).unwrap();
    assert_eq!(lease.address, Ipv4::new(10, 0, 10, 101));
    assert_eq!(lease.mac, "00:1c:73:0c:aa:02");
    assert_eq!(lease.hostname, "laptop-jchen");
    assert_eq!(lease.expires_at, Some(1_787_000_047));
    // A `*` hostname means the client sent none.
    let lease = parse_lease_line(LEASES.lines().nth(2).unwrap()).unwrap();
    assert!(lease.hostname.is_empty());
    // An infinite lease writes expiry 0.
    let lease = parse_lease_line("0 00:11:22:33:44:55 10.0.10.9 host *").unwrap();
    assert_eq!(lease.expires_at, None);
    // Junk is skipped rather than guessed at.
    assert!(parse_lease_line("").is_none());
    assert!(parse_lease_line("not a lease").is_none());
    assert!(parse_lease_line("1787000047 00:1c:73:0c:aa:02 notanip host *").is_none());
}

/// Reservations merge with the leases, utilisation counts only the
/// dynamic range, and rows come out in address order.
#[test]
fn snapshot_merges_reservations_and_counts_utilisation() {
    let snapshot = snapshot_from(&config(), LEASES);
    assert_eq!(in_use(&snapshot), 3);
    let addresses: Vec<String> = snapshot
        .leases
        .iter()
        .map(|lease| lease.address.shown())
        .collect();
    assert_eq!(
        addresses,
        vec!["10.0.10.50", "10.0.10.101", "10.0.10.102", "10.0.10.103"]
    );
    let reserved = snapshot
        .leases
        .iter()
        .find(|lease| lease.address == Ipv4::new(10, 0, 10, 50))
        .unwrap();
    assert!(reserved.reservation);
    assert_eq!(reserved.expires_at, None);
    assert_eq!(reserved.pool, "LAN-USERS");
    // The reservation sits outside the range, so it is not counted
    // against the pool's capacity.
    assert_eq!(pool().capacity(), 101);
    assert!(!pool().in_range(Ipv4::new(10, 0, 10, 50)));
}

/// A reservation the client has actually taken up shows as one row,
/// with the lease's hostname and expiry.
#[test]
fn an_active_reservation_is_one_row() {
    let leases = "1787000047 00:1c:73:0c:aa:01 10.0.10.50 printer-3rdfloor *\n";
    let snapshot = snapshot_from(&config(), leases);
    assert_eq!(snapshot.leases.len(), 1);
    let lease = &snapshot.leases[0];
    assert!(lease.reservation);
    assert_eq!(lease.hostname, "printer-3rdfloor");
    assert_eq!(lease.expires_at, Some(1_787_000_047));
    // ...and it is not counted against the dynamic range.
    assert_eq!(in_use(&snapshot), 0);
}

/// A lease no pool covers still lists (it is real), but counts
/// against nothing.
#[test]
fn leases_outside_every_pool_still_list() {
    let leases = "1787000047 00:11:22:33:44:55 192.0.2.7 stray *\n";
    let snapshot = snapshot_from(&config(), leases);
    assert_eq!(snapshot.leases.len(), 2, "the reservation plus the stray");
    let stray = snapshot
        .leases
        .iter()
        .find(|lease| lease.address == Ipv4::new(192, 0, 2, 7))
        .unwrap();
    assert!(stray.pool.is_empty());
    assert_eq!(in_use(&snapshot), 0);
}

/// Clearing rewrites the file without one address and leaves every
/// other line byte-identical.
#[test]
fn clearing_removes_exactly_one_lease() {
    let (kept, removed) = without_lease(LEASES, Ipv4::new(10, 0, 10, 102));
    assert!(removed);
    assert!(!kept.contains("10.0.10.102"));
    assert!(kept.contains("10.0.10.101"));
    assert!(kept.contains("10.0.10.103"));
    assert_eq!(kept.lines().count(), 2);

    // An address with no lease is not an error, just nothing done.
    let (kept, removed) = without_lease(LEASES, Ipv4::new(10, 0, 10, 55));
    assert!(!removed);
    assert_eq!(kept.lines().count(), 3);
}

/// A range that ends before it starts holds no address, and one that ends
/// where it starts holds one.
#[test]
fn capacities_at_the_edges() {
    let mut p = pool();
    p.range_start = Ipv4::new(10, 0, 10, 200);
    p.range_end = Ipv4::new(10, 0, 10, 100);
    assert_eq!(p.capacity(), 0);
    assert!(!p.in_range(Ipv4::new(10, 0, 10, 150)));
    p.range_start = Ipv4::new(10, 0, 10, 100);
    assert_eq!(p.capacity(), 1);
    assert!(p.in_range(Ipv4::new(10, 0, 10, 100)));
}

/// The engine reads through its configuration, and has nothing to rewrite
/// for an address that holds no lease.
#[test]
fn the_engine_clears_what_it_lists() {
    let mut engine = Engine::new();
    assert_eq!(engine.snapshot(LEASES).leases.len(), 3);
    engine.set_config(config());
    assert_eq!(engine.config().lease_file, "/nonexistent");
    assert_eq!(engine.snapshot(LEASES).leases.len(), 4);
    let kept = engine
        .clear_lease(LEASES, Ipv4::new(10, 0, 10, 101))
        .unwrap();
    assert_eq!(engine.snapshot(&kept).leases.len(), 3);
    assert!(engine
        .clear_lease(LEASES, Ipv4::new(10, 0, 10, 55))
        .is_none());
    assert!(!LEASE_FILE.is_empty());
}

#[test]
fn ordinary_lease_files_can_be_counted() {
    assert!(leases_fit(&config(), ""));
    assert!(leases_fit(
        &config(),
        "1756000000 00:1c:73:0c:aa:02 10.0.10.101 host *\n"
    ));
}

use trsp::{
    Cleaner, DnsError, DomainsSet, IpAddress, LookupPlan, MockRouter, Options, RecordKind,
    TrspAuthority, UpstreamData, UpstreamRecord,
};
use trsp::record::ResponseData;
use trsp::router::Router;

fn v4(a: u8, b: u8, c: u8, d: u8) -> u32 {
    ((a as u32) << 24) | ((b as u32) << 16) | ((c as u32) << 8) | (d as u32)
}

fn options(subnet_addr: u32, prefix: u8) -> Options {
    Options {
        dns_positive_max_ttl: 120,
        dns_negative_max_ttl: 0,
        dns_record_lookup_max_ttl: 10,
        dns_cleanup_record_after_secs: 100,
        dns_cleaner_after_ttl: 3600,
        dns_cleaner_period: 60,
        dns_enable_ipv6_mapping: false,
        dns_enable_ipv6_forward: true,
        dns_mock_router: true,
        dns_mapping_ipv4_subnet: trsp::Ipv4Subnet { addr: subnet_addr, prefix },
    }
}

fn a_record(name: &str, ip: u32) -> UpstreamRecord {
    UpstreamRecord {
        name: name.to_string(),
        kind: RecordKind::A,
        data: Some(UpstreamData::Ip(IpAddress::V4(ip))),
    }
}

fn blocked_authority(domain: &str, subnet: u32, prefix: u8) -> TrspAuthority<MockRouter> {
    let mut ds = DomainsSet::new();
    ds.add_blocked_domain(domain);
    TrspAuthority::new(ds, MockRouter::new(), &options(subnet, prefix)).unwrap()
}

#[test]
fn cold_synthesize() {
    // mapping subnet 10.224.128.0/17; query A example.com;
    // upstream answers 93.184.216.34
    let mut authority = blocked_authority("example.com", v4(10, 224, 128, 0), 17);
    let pool_before = authority.available_ipv4_inner_ips.len();
    assert_eq!(pool_before, (1usize << 15) - 2);

    let name = "example.com".to_string();
    let now = 1000u64;
    match authority.lookup(&name, RecordKind::A, now) {
        LookupPlan::Synthesize => {},
        other => panic!("expected a synthesize plan, got {:?}", other),
    }
    let upstream = vec![a_record("example.com", v4(93, 184, 216, 34))];
    let lookup = authority.add_blocked_domain(&name, RecordKind::A, &upstream, now).unwrap();

    // the response carries the first pool address with the recomputed TTL
    assert_eq!(lookup.records.len(), 1);
    let rec = &lookup.records[0];
    assert_eq!(rec.ttl, 10);
    match &rec.data {
        Some(ResponseData::A(ip)) => assert_eq!(*ip, v4(10, 224, 128, 1)),
        other => panic!("expected an A record, got {:?}", other),
    }

    // one rule mapping the synthetic address to the original
    assert_eq!(authority.router.rule_count(), 1);
    assert!(authority.router.has_rule(v4(10, 224, 128, 1),
        &IpAddress::V4(v4(93, 184, 216, 34))));

    // the pool shrank by one
    assert_eq!(authority.available_ipv4_inner_ips.len(), pool_before - 1);
}

#[test]
fn re_resolve_same_ip_within_ttl() {
    let mut authority = blocked_authority("example.com", v4(10, 224, 128, 0), 17);
    let name = "example.com".to_string();
    let upstream = vec![a_record("example.com", v4(93, 184, 216, 34))];
    authority.add_blocked_domain(&name, RecordKind::A, &upstream, 1000).unwrap();
    let rules_before = authority.router.rule_count();

    // within record_lookup_max_ttl: answered from the store, no upstream call
    match authority.lookup(&name, RecordKind::A, 1005) {
        LookupPlan::Response(lookup) => {
            assert_eq!(lookup.records.len(), 1);
            match &lookup.records[0].data {
                Some(ResponseData::A(ip)) => assert_eq!(*ip, v4(10, 224, 128, 1)),
                other => panic!("expected an A record, got {:?}", other),
            }
            assert_eq!(lookup.records[0].ttl, 5);
        },
        other => panic!("expected a cached response, got {:?}", other),
    }
    assert_eq!(authority.router.rule_count(), rules_before);
}

#[test]
fn re_resolve_new_ip_after_expiry() {
    let mut authority = blocked_authority("example.com", v4(10, 224, 128, 0), 17);
    let name = "example.com".to_string();
    authority.add_blocked_domain(&name, RecordKind::A,
        &vec![a_record("example.com", v4(93, 184, 216, 34))], 1000).unwrap();

    // freshness expired: the plan asks for a new upstream resolution
    let now = 1020u64;
    match authority.lookup(&name, RecordKind::A, now) {
        LookupPlan::Synthesize => {},
        other => panic!("expected a synthesize plan, got {:?}", other),
    }

    // upstream now answers a different address
    authority.add_blocked_domain(&name, RecordKind::A,
        &vec![a_record("example.com", v4(93, 184, 216, 35))], now).unwrap();

    let set = authority.inner_storage.find(&name, RecordKind::A).unwrap();
    let records = set.records();
    assert_eq!(records.len(), 2);
    // the old record is marked for cleanup at now + cleanup_record_after_secs
    assert_eq!(records[0].original_addr, Some(IpAddress::V4(v4(93, 184, 216, 34))));
    assert_eq!(records[0].cleanup_at, Some(now + 100));
    // the new record holds the next synthetic address and is live
    assert_eq!(records[1].original_addr, Some(IpAddress::V4(v4(93, 184, 216, 35))));
    assert_eq!(records[1].mapped_addr, Some(IpAddress::V4(v4(10, 224, 128, 2))));
    assert_eq!(records[1].cleanup_at, None);
    // both stay routable: two rules installed
    assert_eq!(authority.router.rule_count(), 2);
}

#[test]
fn reaper_evicts_stale_set() {
    let mut authority = blocked_authority("example.com", v4(10, 224, 128, 0), 17);
    let pool_full = authority.available_ipv4_inner_ips.len();
    let name = "example.com".to_string();
    authority.add_blocked_domain(&name, RecordKind::A,
        &vec![a_record("example.com", v4(93, 184, 216, 34))], 1000).unwrap();
    authority.add_blocked_domain(&name, RecordKind::A,
        &vec![a_record("example.com", v4(93, 184, 216, 35))], 1020).unwrap();
    assert_eq!(authority.available_ipv4_inner_ips.len(), pool_full - 2);

    // past clear_after_ttl without a re-query: the whole set goes
    let cleaner = Cleaner::new(3600, 60);
    let evicted = cleaner.cleaner_tick(&mut authority, 1020 + 3601);
    assert_eq!(evicted.len(), 1);
    assert_eq!(evicted[0].name(), "example.com");
    assert_eq!(evicted[0].record_type, RecordKind::A);

    assert_eq!(authority.inner_storage.len(), 0);
    assert_eq!(authority.available_ipv4_inner_ips.len(), pool_full);
    assert_eq!(authority.router.rule_count(), 0);
}

#[test]
fn reaper_drops_past_due_records_only() {
    let mut authority = blocked_authority("example.com", v4(10, 224, 128, 0), 17);
    let name = "example.com".to_string();
    authority.add_blocked_domain(&name, RecordKind::A,
        &vec![a_record("example.com", v4(93, 184, 216, 34))], 1000).unwrap();
    // re-resolution replaces the address: the old record is marked
    authority.add_blocked_domain(&name, RecordKind::A,
        &vec![a_record("example.com", v4(93, 184, 216, 35))], 1020).unwrap();

    // after the grace period but before hard expiry of the set
    let cleaner = Cleaner::new(3600, 60);
    let evicted = cleaner.cleaner_tick(&mut authority, 1150);
    assert_eq!(evicted.len(), 0);

    let set = authority.inner_storage.find(&name, RecordKind::A).unwrap();
    assert_eq!(set.records().len(), 1);
    assert_eq!(set.records()[0].original_addr, Some(IpAddress::V4(v4(93, 184, 216, 35))));
    assert_eq!(authority.router.rule_count(), 1);
}

#[test]
fn pool_exhaustion_two_hosts() {
    // a /30 subnet has exactly two usable hosts
    let mut ds = DomainsSet::new();
    ds.add_blocked_domain("one.example");
    ds.add_blocked_domain("two.example");
    ds.add_blocked_domain("three.example");
    let mut authority =
        TrspAuthority::new(ds, MockRouter::new(), &options(v4(10, 0, 0, 0), 30)).unwrap();
    assert_eq!(authority.available_ipv4_inner_ips.len(), 2);

    authority.add_blocked_domain(&"one.example".to_string(), RecordKind::A,
        &vec![a_record("one.example", v4(1, 1, 1, 1))], 10).unwrap();
    authority.add_blocked_domain(&"two.example".to_string(), RecordKind::A,
        &vec![a_record("two.example", v4(2, 2, 2, 2))], 10).unwrap();
    let third = authority.add_blocked_domain(&"three.example".to_string(), RecordKind::A,
        &vec![a_record("three.example", v4(3, 3, 3, 3))], 10);
    match third {
        Err(DnsError::PoolExhausted) => {},
        other => panic!("expected pool exhaustion, got {:?}", other),
    }

    // exactly the two successful syntheses are installed
    assert_eq!(authority.inner_storage.len(), 2);
    assert_eq!(authority.router.rule_count(), 2);
    assert_eq!(authority.available_ipv4_inner_ips.len(), 0);
}

#[test]
fn router_failure_rolls_back() {
    let mut authority = blocked_authority("example.com", v4(10, 224, 128, 0), 17);
    let pool_full = authority.available_ipv4_inner_ips.len();
    authority.router.fail_install = true;

    let r = authority.add_blocked_domain(&"example.com".to_string(), RecordKind::A,
        &vec![a_record("example.com", v4(93, 184, 216, 34))], 1000);
    match r {
        Err(DnsError::RouterFailure(_)) => {},
        other => panic!("expected a router failure, got {:?}", other),
    }

    // nothing changed: the pool is full, the store empty, no rule installed
    assert_eq!(authority.available_ipv4_inner_ips.len(), pool_full);
    assert_eq!(authority.inner_storage.len(), 0);
    assert_eq!(authority.router.rule_count(), 0);
}

#[test]
fn aaaa_gates() {
    let authority = blocked_authority("example.com", v4(10, 224, 128, 0), 17);
    // mapping for AAAA is off, forwarding on: forward
    match authority.lookup(&"example.com".to_string(), RecordKind::Aaaa, 0) {
        LookupPlan::Forward => {},
        other => panic!("expected forwarding, got {:?}", other),
    }

    let mut opts = options(v4(10, 224, 128, 0), 17);
    opts.dns_enable_ipv6_forward = false;
    let mut ds = DomainsSet::new();
    ds.add_blocked_domain("example.com");
    let authority = TrspAuthority::new(ds, MockRouter::new(), &opts).unwrap();
    match authority.lookup(&"example.com".to_string(), RecordKind::Aaaa, 0) {
        LookupPlan::NxDomain => {},
        other => panic!("expected a refusal, got {:?}", other),
    }
}

#[test]
fn unblocked_names_forward() {
    let authority = blocked_authority("example.com", v4(10, 224, 128, 0), 17);
    match authority.lookup(&"other.example".to_string(), RecordKind::A, 0) {
        LookupPlan::Forward => {},
        other => panic!("expected forwarding, got {:?}", other),
    }
}

#[test]
fn cname_records_pass_through() {
    let mut authority = blocked_authority("example.com", v4(10, 224, 128, 0), 17);
    let upstream = vec![
        UpstreamRecord {
            name: "example.com".to_string(),
            kind: RecordKind::Cname,
            data: Some(UpstreamData::Cname("cdn.example.net".to_string())),
        },
        a_record("cdn.example.net", v4(93, 184, 216, 34)),
    ];
    let lookup = authority.add_blocked_domain(&"example.com".to_string(), RecordKind::A,
        &upstream, 1000).unwrap();
    assert_eq!(lookup.records.len(), 2);
    match &lookup.records[0].data {
        Some(ResponseData::Cname(t)) => assert_eq!(t, "cdn.example.net"),
        other => panic!("expected the CNAME, got {:?}", other),
    }
    // the CNAME consumes no synthetic address
    assert_eq!(authority.router.rule_count(), 1);
}

#[test]
fn chain_matches_store_throughout() {
    let mut authority = blocked_authority("example.com", v4(10, 224, 128, 0), 17);
    let name = "example.com".to_string();
    authority.add_blocked_domain(&name, RecordKind::A,
        &vec![a_record("example.com", v4(93, 184, 216, 34))], 1000).unwrap();
    authority.add_blocked_domain(&name, RecordKind::A,
        &vec![a_record("example.com", v4(93, 184, 216, 35))], 1020).unwrap();

    // every routable record of the store has exactly its rule, and nothing else
    let set = authority.inner_storage.find(&name, RecordKind::A).unwrap();
    let mut routable = 0;
    for rec in set.records().iter() {
        if rec.is_routable() {
            routable += 1;
            match (rec.mapped_addr, rec.original_addr) {
                (Some(IpAddress::V4(mapped)), Some(original)) => {
                    assert!(authority.router.has_rule(mapped, &original));
                },
                other => panic!("unexpected addresses: {:?}", other),
            }
        }
    }
    assert_eq!(authority.router.rule_count(), routable);

    // after the reaper drops the soft-deleted record, parity still holds
    let cleaner = Cleaner::new(3600, 60);
    let _evicted = cleaner.cleaner_tick(&mut authority, 1150);
    let set = authority.inner_storage.find(&name, RecordKind::A).unwrap();
    assert_eq!(authority.router.rule_count(), set.records().len());
}

#[test]
fn addressless_records_do_not_draw_from_the_pool() {
    // both hosts of the /30 are taken; a record without an address must be
    // dropped without consulting the pool, not reported as exhaustion
    let mut ds = DomainsSet::new();
    ds.add_blocked_domain("one.example");
    ds.add_blocked_domain("two.example");
    ds.add_blocked_domain("three.example");
    let mut authority =
        TrspAuthority::new(ds, MockRouter::new(), &options(v4(10, 0, 0, 0), 30)).unwrap();
    authority.add_blocked_domain(&"one.example".to_string(), RecordKind::A,
        &vec![a_record("one.example", v4(1, 1, 1, 1))], 10).unwrap();
    authority.add_blocked_domain(&"two.example".to_string(), RecordKind::A,
        &vec![a_record("two.example", v4(2, 2, 2, 2))], 10).unwrap();
    assert_eq!(authority.available_ipv4_inner_ips.len(), 0);

    let odd = UpstreamRecord {
        name: "three.example".to_string(),
        kind: RecordKind::Other(16),
        data: Some(UpstreamData::Other),
    };
    let lookup = authority.add_blocked_domain(&"three.example".to_string(), RecordKind::A,
        &vec![odd], 10).unwrap();
    assert_eq!(lookup.records.len(), 0);
    assert_eq!(authority.router.rule_count(), 2);
}

use trsp::{IpAddress, IpPool, Ipv4Subnet, MockRouter, ProxyRecord, ProxyRecordSet, RecordKind};
use trsp::router::Router;

fn routable(name: &str, orig: u32, mapped: u32) -> ProxyRecord {
    ProxyRecord::new(
        name.to_string(),
        RecordKind::A,
        None,
        Some(IpAddress::V4(orig)),
        Some(IpAddress::V4(mapped)),
    )
}

#[test]
fn allocate_after_release_front_is_identity() {
    let mut pool = IpPool::from_hosts(vec![7, 8, 9]);
    let first = pool.allocate().unwrap();
    assert_eq!(first, 7);
    // rollback: the address goes back to the front and is handed out next
    pool.release_front(first);
    assert_eq!(pool.len(), 3);
    assert_eq!(pool.allocate(), Some(7));
    assert_eq!(pool.allocate(), Some(8));
    pool.release(7);
    assert_eq!(pool.allocate(), Some(9));
    assert_eq!(pool.allocate(), Some(7));
    assert_eq!(pool.allocate(), None);
}

#[test]
fn pool_for_subnet_excludes_network_and_broadcast() {
    // 10.0.0.0/30 spans 10.0.0.0 .. 10.0.0.3; the hosts are .1 and .2
    let subnet = Ipv4Subnet { addr: 0x0A000000, prefix: 30 };
    let mut pool = IpPool::for_subnet(&subnet);
    assert_eq!(pool.len(), 2);
    assert_eq!(pool.allocate(), Some(0x0A000001));
    assert_eq!(pool.allocate(), Some(0x0A000002));
    assert_eq!(pool.allocate(), None);
}

#[test]
fn pool_for_tiny_prefixes() {
    // a /31 keeps both addresses, a /32 its single one
    let mut pool = IpPool::for_subnet(&Ipv4Subnet { addr: 0x0A000000, prefix: 31 });
    assert_eq!(pool.len(), 2);
    assert_eq!(pool.allocate(), Some(0x0A000000));
    assert_eq!(pool.allocate(), Some(0x0A000001));
    let mut pool = IpPool::for_subnet(&Ipv4Subnet { addr: 0x0A000005, prefix: 32 });
    assert_eq!(pool.len(), 1);
    assert_eq!(pool.allocate(), Some(0x0A000005));
}

#[test]
fn install_then_remove_restores_router() {
    let mut set = ProxyRecordSet::new(&"some.domain".to_string(), 0, 60);
    set.push(&routable("some.domain", 0x01010101, 0x0A000001)).unwrap();
    set.push(&routable("some.domain", 0x02020202, 0x0A000002)).unwrap();

    let mut router = MockRouter::new();
    router.install(&set).unwrap();
    assert_eq!(router.rule_count(), 2);
    assert!(router.has_rule(0x0A000001, &IpAddress::V4(0x01010101)));
    assert!(router.has_rule(0x0A000002, &IpAddress::V4(0x02020202)));

    // installing again adds nothing: check-then-add is idempotent
    router.install(&set).unwrap();
    assert_eq!(router.rule_count(), 2);

    // removing the set leaves the chain as it started
    router.remove(&set).unwrap();
    assert_eq!(router.rule_count(), 0);

    // removing again is not an error
    router.remove(&set).unwrap();
    assert_eq!(router.rule_count(), 0);
}

#[test]
fn install_skips_marked_records() {
    let mut set = ProxyRecordSet::new(&"some.domain".to_string(), 0, 60);
    let mut marked = routable("some.domain", 0x01010101, 0x0A000001);
    marked.mark_for_cleanup(100, 50);
    set.push(&marked).unwrap();
    set.push(&routable("some.domain", 0x02020202, 0x0A000002)).unwrap();

    let mut router = MockRouter::new();
    router.install(&set).unwrap();
    assert_eq!(router.rule_count(), 1);
    assert!(router.has_rule(0x0A000002, &IpAddress::V4(0x02020202)));
}

#[test]
fn remove_old_records_splits_past_due() {
    let mut set = ProxyRecordSet::new(&"some.domain".to_string(), 0, 60);
    let mut due = routable("some.domain", 0x01010101, 0x0A000001);
    due.mark_for_cleanup(100, 50);  // past due at 150
    set.push(&due).unwrap();
    set.push(&routable("some.domain", 0x02020202, 0x0A000002)).unwrap();

    let mut router = MockRouter::new();
    router.install(&set).unwrap();
    // the marked record's rule was installed before it was marked
    router.rules.push(trsp::router::MockRule {
        mapped: 0x0A000001,
        original: IpAddress::V4(0x01010101),
    });

    let gone = router.remove_old_records(&mut set, 200).unwrap();
    assert_eq!(gone.len(), 1);
    assert_eq!(gone[0].mapped_addr, Some(IpAddress::V4(0x0A000001)));
    assert_eq!(set.records().len(), 1);
    assert_eq!(set.records()[0].mapped_addr, Some(IpAddress::V4(0x0A000002)));
    assert!(!router.has_rule(0x0A000001, &IpAddress::V4(0x01010101)));
    assert!(router.has_rule(0x0A000002, &IpAddress::V4(0x02020202)));
}

#[test]
fn failing_router_reports_and_changes_nothing() {
    let mut set = ProxyRecordSet::new(&"some.domain".to_string(), 0, 60);
    set.push(&routable("some.domain", 0x01010101, 0x0A000001)).unwrap();
    let mut router = MockRouter::new();
    router.fail_install = true;
    assert!(router.install(&set).is_err());
    assert_eq!(router.rule_count(), 0);
    router.fail_install = false;
    router.install(&set).unwrap();
    router.fail_remove = true;
    assert!(router.remove(&set).is_err());
    assert_eq!(router.rule_count(), 1);
}

fn accepting_runner(_cmd: &Vec<String>, _v6: bool) -> Result<(), String> {
    Ok(())
}

fn refusing_runner(cmd: &Vec<String>, _v6: bool) -> Result<(), String> {
    if cmd[0] == "-C" {
        // the check reports the rule as missing, so an add is attempted
        Err("iptables: Bad rule (does a matching rule exist in that chain?).".to_string())
    } else {
        Err("iptables: the filter refused the command".to_string())
    }
}

#[test]
fn subprocess_router_mirrors_the_chain() {
    let plan = trsp::Iptables::new(None, Ipv4Subnet { addr: 0x0AE00000, prefix: 15 }, true, false);
    let runner: fn(&Vec<String>, bool) -> Result<(), String> = accepting_runner;
    let mut router = trsp::SubprocessRouter::new(plan, runner);
    router.init().unwrap();

    let mut set = ProxyRecordSet::new(&"some.domain".to_string(), 0, 60);
    set.push(&routable("some.domain", 0x01010101, 0x0A000001)).unwrap();
    router.install(&set).unwrap();
    assert_eq!(router.rules.len(), 1);
    assert_eq!(router.rules[0].mapped, 0x0A000001);

    router.remove(&set).unwrap();
    assert_eq!(router.rules.len(), 0);
}

#[test]
fn subprocess_router_rolls_back_on_refusal() {
    let plan = trsp::Iptables::new(None, Ipv4Subnet { addr: 0x0AE00000, prefix: 15 }, true, false);
    let runner: fn(&Vec<String>, bool) -> Result<(), String> = refusing_runner;
    let mut router = trsp::SubprocessRouter::new(plan, runner);

    let mut set = ProxyRecordSet::new(&"some.domain".to_string(), 0, 60);
    set.push(&routable("some.domain", 0x01010101, 0x0A000001)).unwrap();
    assert!(router.install(&set).is_err());
    assert_eq!(router.rules.len(), 0);
}

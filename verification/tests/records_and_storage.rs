use trsp::{InnerStorage, IpAddress, ProxyRecord, ProxyRecordSet, PushError, RecordKind, TRrKey};
use trsp::record::ResponseData;

fn routable(orig: u32, mapped: u32) -> ProxyRecord {
    ProxyRecord::new(
        "some.domain".to_string(),
        RecordKind::A,
        None,
        Some(IpAddress::V4(orig)),
        Some(IpAddress::V4(mapped)),
    )
}

fn cname(target: &str) -> ProxyRecord {
    ProxyRecord::new(
        "some.domain".to_string(),
        RecordKind::Cname,
        Some(target.to_string()),
        None,
        None,
    )
}

#[test]
fn push_rejects_collisions() {
    let mut set = ProxyRecordSet::new(&"some.domain".to_string(), 0, 60);
    set.push(&routable(1, 101)).unwrap();
    assert_eq!(set.push(&routable(1, 102)), Err(PushError::OriginalAddrExists));
    assert_eq!(set.push(&routable(2, 101)), Err(PushError::MappedAddrExists));
    set.push(&cname("target.example")).unwrap();
    assert_eq!(set.push(&cname("target.example")), Err(PushError::CnameExists));
    set.push(&cname("other.example")).unwrap();
    assert_eq!(set.records().len(), 3);
}

#[test]
fn ttl_counts_down_and_clamps() {
    let set = ProxyRecordSet::new(&"some.domain".to_string(), 1000, 60);
    assert_eq!(set.ttl(1000), 60);
    assert_eq!(set.ttl(1030), 30);
    assert_eq!(set.ttl(1060), 0);
    assert_eq!(set.ttl(2000), 0);
    // a clock that runs behind reads as zero seconds passed
    assert_eq!(set.ttl(900), 60);
    assert_eq!(set.resolved_secs_ago(900), 0);
    assert_eq!(set.resolved_secs_ago(1030), 30);
    // the emitted TTL saturates at what a response field can carry
    let wide = ProxyRecordSet::new(&"some.domain".to_string(), 0, u64::MAX);
    assert_eq!(wide.ttl(0), u32::MAX);
}

#[test]
fn ttl_never_grows_with_time() {
    let set = ProxyRecordSet::new(&"some.domain".to_string(), 1000, 60);
    let mut last = set.ttl(1000);
    for step in 0..80u64 {
        let next = set.ttl(1000 + step);
        assert!(next <= last);
        last = next;
    }
}

#[test]
fn response_hides_marked_records() {
    let mut set = ProxyRecordSet::new(&"some.domain".to_string(), 1000, 60);
    set.push(&cname("target.example")).unwrap();
    set.push(&routable(1, 101)).unwrap();
    let mut marked = routable(2, 102);
    marked.mark_for_cleanup(1000, 50);
    set.push(&marked).unwrap();

    let response = set.records_for_response(1010);
    assert_eq!(response.len(), 2);
    match &response[0].data {
        Some(ResponseData::Cname(t)) => assert_eq!(t, "target.example"),
        other => panic!("expected the CNAME, got {:?}", other),
    }
    match &response[1].data {
        Some(ResponseData::A(ip)) => assert_eq!(*ip, 101),
        other => panic!("expected the A record, got {:?}", other),
    }
    assert_eq!(response[0].ttl, 50);
}

#[test]
fn marks_toggle() {
    let mut rec = routable(1, 101);
    assert!(rec.is_live());
    assert!(!rec.is_past_due(1000));
    rec.mark_for_cleanup(1000, 50);
    assert_eq!(rec.cleanup_at, Some(1050));
    assert!(!rec.is_past_due(1049));
    assert!(rec.is_past_due(1050));
    rec.unmark_for_cleanup();
    assert!(rec.is_live());
    assert!(rec.is_routable());
    assert!(!cname("x").is_routable());
    assert!(cname("x").is_cname());
    assert_eq!(cname("x").rdata().unwrap(), "x");
}

#[test]
fn remove_record_drops_matching_pair() {
    let mut set = ProxyRecordSet::new(&"some.domain".to_string(), 0, 60);
    set.push(&routable(1, 101)).unwrap();
    set.push(&routable(2, 102)).unwrap();
    set.remove_record(&routable(1, 101));
    assert_eq!(set.records().len(), 1);
    assert_eq!(set.records()[0].original_addr, Some(IpAddress::V4(2)));
    // removing a pair that is not there changes nothing
    set.remove_record(&routable(9, 109));
    assert_eq!(set.records().len(), 1);
}

#[test]
fn storage_find_upsert_remove() {
    let mut storage = InnerStorage::new();
    let name = "example.com".to_string();
    assert!(storage.find(&name, RecordKind::A).is_none());

    let mut set = ProxyRecordSet::new(&name, 10, 60);
    set.push(&routable(1, 101)).unwrap();
    storage.upsert(&name, RecordKind::A, &set);
    assert_eq!(storage.len(), 1);

    let found = storage.find(&name, RecordKind::A).unwrap();
    assert_eq!(found.resolved_at, 10);
    assert_eq!(found.records().len(), 1);
    // the same name under another type is a different key
    assert!(storage.find(&name, RecordKind::Aaaa).is_none());

    let mut set2 = ProxyRecordSet::new(&name, 20, 60);
    set2.push(&routable(2, 102)).unwrap();
    storage.upsert(&name, RecordKind::A, &set2);
    assert_eq!(storage.len(), 1);
    assert_eq!(storage.find(&name, RecordKind::A).unwrap().resolved_at, 20);

    storage.remove(&name, RecordKind::A);
    assert_eq!(storage.len(), 0);
    assert!(storage.find(&name, RecordKind::A).is_none());

    let key = TRrKey::new(name.clone(), RecordKind::A);
    assert_eq!(key.name(), "example.com");
}

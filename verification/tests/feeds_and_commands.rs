use trsp::{
    prepare_csv_domain, CsvDomainParser, Domains, FeedError, IpAddress, Iptables, NxDomainParser,
    ProxyRecord, ProxyRecordSet, RecordKind, RuleMode,
};
use trsp::iptables::{
    ipv4_to_string, is_rule_exists, stderr_means_chain_exists, stderr_means_missing_rule,
    stderr_means_no_chain, subnet_to_string, u8_to_string,
};
use trsp::Ipv4Subnet;

#[test]
fn csv_parser_takes_third_field() {
    let mut parser = CsvDomainParser::new();
    let mut domains = Domains::new();
    let feed = b"1.2.3.4;2019-01-01;blocked.example;extra\n5.6.7.8;2019-01-02;other.example.;x\n";
    let errors = parser.consume_chunk(&feed.to_vec(), &mut domains);
    assert_eq!(errors, 0);
    assert_eq!(domains.count(), 2);
    assert!(domains.get("blocked.example").is_some());
    // the trailing dot was stripped
    assert!(domains.get("other.example").is_some());
}

#[test]
fn csv_parser_streams_across_chunks() {
    let mut parser = CsvDomainParser::new();
    let mut domains = Domains::new();
    parser.consume_chunk(&b"a;b;split.exa".to_vec(), &mut domains);
    assert_eq!(domains.count(), 0);
    parser.consume_chunk(&b"mple;c\n".to_vec(), &mut domains);
    assert_eq!(domains.count(), 1);
    assert!(domains.get("split.example").is_some());
}

#[test]
fn csv_parser_decodes_windows1251() {
    // the domain column holds Cyrillic letters in Windows-1251
    let mut line: Vec<u8> = Vec::new();
    line.extend_from_slice(b"x;y;");
    // windows-1251 for the five letters of a Cyrillic word
    line.extend_from_slice(&[0xE4, 0xEE, 0xEC, 0xE5, 0xED]);
    line.extend_from_slice(b".com;z\n");
    let mut parser = CsvDomainParser::new();
    let mut domains = Domains::new();
    let errors = parser.consume_chunk(&line, &mut domains);
    assert_eq!(errors, 0);
    assert_eq!(domains.count(), 1);
    assert!(domains.get("домен.com").is_some());
}

#[test]
fn csv_parser_skips_invalid_and_duplicate_names() {
    let mut parser = CsvDomainParser::new();
    let mut domains = Domains::new();
    let feed = b"a;b;bad name;x\na;b;good.example;x\na;b;good.example;x\na;b;;x\n";
    let errors = parser.consume_chunk(&feed.to_vec(), &mut domains);
    assert_eq!(errors, 0);
    assert_eq!(domains.count(), 1);
}

#[test]
fn prepare_csv_domain_decodes() {
    assert_eq!(prepare_csv_domain(&b"plain.example.".to_vec()), Ok("plain.example".to_string()));
    let cyr: Vec<u8> = vec![0xE4, 0xEE, 0xEC, 0xE5, 0xED];
    assert_eq!(prepare_csv_domain(&cyr), Ok("домен".to_string()));
    assert_eq!(prepare_csv_domain(&b"bad\\path".to_vec()), Ok("".to_string()));
}

#[test]
fn nx_parser_removes_names() {
    let mut domains = Domains::new();
    domains.set("dead.example");
    domains.set("alive.example");
    let mut parser = NxDomainParser::new();
    let errors = parser.consume_chunk(&b"dead.example\nmissing.example\n".to_vec(), &mut domains);
    assert_eq!(errors, 0);
    assert_eq!(domains.count(), 1);
    assert!(domains.get("alive.example").is_some());
}

#[test]
fn nx_parser_counts_undecodable_lines() {
    let mut domains = Domains::new();
    let mut parser = NxDomainParser::new();
    let errors = parser.consume_chunk(&vec![0xFF, 0xFE, 10u8], &mut domains);
    assert_eq!(errors, 1);
}

#[test]
fn decimal_formatting() {
    assert_eq!(u8_to_string(0), "0");
    assert_eq!(u8_to_string(7), "7");
    assert_eq!(u8_to_string(42), "42");
    assert_eq!(u8_to_string(255), "255");
    assert_eq!(ipv4_to_string(0x0A000001), "10.0.0.1");
    assert_eq!(ipv4_to_string(0x5DB8D822), "93.184.216.34");
    assert_eq!(ipv4_to_string(0xFFFFFFFF), "255.255.255.255");
    assert_eq!(subnet_to_string(&Ipv4Subnet { addr: 0x0AE08000, prefix: 17 }),
        "10.224.128.0/17");
}

#[test]
fn route_rule_argv_shape() {
    let iptables = Iptables::new(None, Ipv4Subnet { addr: 0x0AE00000, prefix: 15 }, true, false);
    let record = ProxyRecord::new(
        "some.domain".to_string(),
        RecordKind::A,
        None,
        Some(IpAddress::V4(0x5DB8D822)),
        Some(IpAddress::V4(0x0AE08001)),
    );
    let cmd = iptables.gen_route_rule(&record, "some.domain", RuleMode::Add);
    let expected = vec![
        "-A", "dnsrouter", "-w", "-t", "nat", "-m", "comment", "--comment", "some.domain",
        "-d", "10.224.128.1", "-j", "DNAT", "--to", "93.184.216.34",
    ];
    assert_eq!(cmd, expected);
    let check = iptables.gen_route_rule(&record, "some.domain", RuleMode::Check);
    assert_eq!(check[0], "-C");
    let del = iptables.gen_route_rule(&record, "some.domain", RuleMode::Del);
    assert_eq!(del[0], "-D");
}

#[test]
fn chain_commands() {
    let iptables = Iptables::new(Some("mychain"),
        Ipv4Subnet { addr: 0x0AE00000, prefix: 15 }, true, false);
    assert_eq!(iptables.create_chain_args(), vec!["-N", "mychain", "-t", "nat"]);
    assert_eq!(iptables.cleanup_args(), vec!["-t", "nat", "-F", "mychain"]);
    assert_eq!(iptables.jump_rule_args(true), vec![
        "-C", "PREROUTING", "-t", "nat", "-s", "10.224.0.0/15", "-d", "10.224.0.0/15",
        "-j", "mychain",
    ]);
    assert_eq!(iptables.jump_rule_args(false)[0], "-A");
}

#[test]
fn generate_comment_is_domain() {
    let record_set = ProxyRecordSet::new(&"some.domain".to_string(), 0, 120);
    let comment = Iptables::generate_comment(&record_set);
    assert_eq!(comment, "some.domain");
}

#[test]
fn stderr_classification() {
    assert!(is_rule_exists(&Ok(())));
    assert!(!is_rule_exists(&Err(
        "iptables: Bad rule (does a matching rule exist in that chain?).".to_string()
    )));
    // an unreadable answer counts as existing, so no duplicate is added
    assert!(is_rule_exists(&Err("something else".to_string())));
    assert!(stderr_means_missing_rule(
        "iptables: Bad rule (does a matching rule exist in that chain?)."));
    assert!(!stderr_means_missing_rule("iptables: No chain/target/match by that name."));
    assert!(stderr_means_chain_exists("iptables: Chain already exists."));
    assert!(stderr_means_no_chain("iptables: No chain/target/match by that name."));
    assert!(!stderr_means_no_chain(""));
}

#[test]
fn feed_error_equality() {
    assert_eq!(FeedError::DecodeFailed, FeedError::DecodeFailed);
}

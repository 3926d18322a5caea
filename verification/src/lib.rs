//! Core of a DNS interception proxy: blocklist membership with wildcard
//! matching, a bounded pool of synthetic IPv4 addresses, an in-memory record
//! store kept consistent with installed destination-NAT rules, the decision
//! engine that synthesizes responses for blocked domains, and the periodic
//! cleaner that evicts stale records and frees their addresses.

pub mod authority;
pub mod cleaner;
pub mod domain;
pub mod domains_set;
pub mod driver;
pub mod feed;
pub mod ip;
pub mod iptables;
pub mod record;
pub mod router;
pub mod storage;

pub use authority::{DnsError, LookupPlan, Options, SyntheticLookup, TrspAuthority, UpstreamData, UpstreamRecord};
pub use cleaner::Cleaner;
pub use domain::{Domain, Domains, prepare_domain_name};
pub use domains_set::DomainsSet;
pub use driver::SubprocessRouter;
pub use feed::{CsvDomainParser, FeedError, NxDomainParser, prepare_csv_domain};
pub use ip::{IpAddress, IpPool, Ipv4Subnet};
pub use iptables::{Iptables, RuleMode};
pub use record::{ProxyRecord, ProxyRecordSet, PushError, RecordKind};
pub use router::{MockRouter, Router, RouterError};
pub use storage::{InnerStorage, TRrKey};

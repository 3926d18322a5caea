//! The packet-filter driver's pure half: the exact argument vectors of the
//! filter commands, and the classification of what the filter prints. The
//! half that spawns the subprocesses lives outside the library and feeds
//! their output back in.

use vstd::prelude::*;
use crate::ip::{IpAddress, Ipv4Subnet};
use crate::record::{ProxyRecord, ProxyRecordSet};

verus! {

/// The decimal digits of a byte, most significant first.
pub open spec fn u8_dec(n: u8) -> Seq<char> {
    let d0 = ((48 + (n as int % 10)) as u8) as char;
    let d1 = ((48 + ((n as int / 10) % 10)) as u8) as char;
    let d2 = ((48 + (n as int / 100)) as u8) as char;
    if n < 10 {
        seq![d0]
    } else if n < 100 {
        seq![d1, d0]
    } else {
        seq![d2, d1, d0]
    }
}

/// The octets of an IPv4 address, most significant first.
pub open spec fn ip_octet(ip: u32, k: int) -> u8
    recommends
        0 <= k < 4,
{
    if k == 0 {
        (ip as int / 0x100_0000) as u8
    } else if k == 1 {
        ((ip as int / 0x1_0000) % 256) as u8
    } else if k == 2 {
        ((ip as int / 256) % 256) as u8
    } else {
        (ip as int % 256) as u8
    }
}

/// The dotted-decimal form of an IPv4 address.
pub open spec fn ipv4_str(ip: u32) -> Seq<char> {
    u8_dec(ip_octet(ip, 0)) + seq!['.'] + u8_dec(ip_octet(ip, 1)) + seq!['.']
        + u8_dec(ip_octet(ip, 2)) + seq!['.'] + u8_dec(ip_octet(ip, 3))
}

/// The CIDR form of a subnet.
pub open spec fn subnet_str(s: Ipv4Subnet) -> Seq<char> {
    ipv4_str(s.addr) + seq!['/'] + u8_dec(s.prefix)
}

fn digit_str(d: u8) -> (r: &'static str)
    requires
        d < 10,
    ensures
        r@ == seq![((48 + d) as u8) as char],
{
    proof {
        reveal_strlit("0");
        reveal_strlit("1");
        reveal_strlit("2");
        reveal_strlit("3");
        reveal_strlit("4");
        reveal_strlit("5");
        reveal_strlit("6");
        reveal_strlit("7");
        reveal_strlit("8");
        reveal_strlit("9");
    }
    match d {
        0 => "0",
        1 => "1",
        2 => "2",
        3 => "3",
        4 => "4",
        5 => "5",
        6 => "6",
        7 => "7",
        8 => "8",
        _ => "9",
    }
}

/// Formats a byte in decimal.
pub fn u8_to_string(n: u8) -> (r: String)
    ensures
        r@ == u8_dec(n),
{
    let mut out = String::new();
    if n >= 100 {
        out.append(digit_str(n / 100));
    }
    if n >= 10 {
        out.append(digit_str((n / 10) % 10));
    }
    out.append(digit_str(n % 10));
    proof {
        assert(out@ =~= u8_dec(n));
    }
    out
}

fn dot() -> (r: &'static str)
    ensures
        r@ == seq!['.'],
{
    proof {
        reveal_strlit(".");
    }
    "."
}

/// Formats an IPv4 address in dotted decimal.
pub fn ipv4_to_string(ip: u32) -> (r: String)
    ensures
        r@ == ipv4_str(ip),
{
    let mut out = String::new();
    let o0 = (ip / 0x100_0000) as u8;
    let o1 = ((ip / 0x1_0000) % 256) as u8;
    let o2 = ((ip / 256) % 256) as u8;
    let o3 = (ip % 256) as u8;
    out.append(u8_to_string(o0).as_str());
    out.append(dot());
    out.append(u8_to_string(o1).as_str());
    out.append(dot());
    out.append(u8_to_string(o2).as_str());
    out.append(dot());
    out.append(u8_to_string(o3).as_str());
    proof {
        assert(out@ =~= ipv4_str(ip));
    }
    out
}

fn slash() -> (r: &'static str)
    ensures
        r@ == seq!['/'],
{
    proof {
        reveal_strlit("/");
    }
    "/"
}

/// Formats a subnet in CIDR form.
pub fn subnet_to_string(s: &Ipv4Subnet) -> (r: String)
    ensures
        r@ == subnet_str(*s),
{
    let mut out = ipv4_to_string(s.addr);
    out.append(slash());
    out.append(u8_to_string(s.prefix).as_str());
    proof {
        assert(out@ =~= subnet_str(*s));
    }
    out
}

/// Whether `needle` occurs in `hay`.
pub open spec fn contains_seq(hay: Seq<char>, needle: Seq<char>) -> bool {
    exists|i: int| 0 <= i && i + needle.len() <= hay.len()
        && #[trigger] hay.subrange(i, i + needle.len()) == needle
}

/// Substring search, character for character.
pub fn contains_str(hay: &str, needle: &str) -> (r: bool)
    ensures
        r == contains_seq(hay@, needle@),
{
    let hl = hay.unicode_len();
    let nl = needle.unicode_len();
    if nl > hl {
        proof {
            assert(!contains_seq(hay@, needle@)) by {
                if contains_seq(hay@, needle@) {
                    let i = choose|i: int| 0 <= i && i + needle@.len() <= hay@.len()
                        && #[trigger] hay@.subrange(i, i + needle@.len()) == needle@;
                }
            }
        }
        return false;
    }
    let mut i: usize = 0;
    while i <= hl - nl
        invariant
            nl <= hl,
            hl == hay@.len(),
            nl == needle@.len(),
            i <= hl - nl + 1,
            forall|k: int| 0 <= k < i ==> #[trigger] hay@.subrange(k, k + needle@.len()) != needle@,
        decreases hl - nl + 1 - i,
    {
        let mut j: usize = 0;
        let mut matched = true;
        while j < nl
            invariant
                j <= nl,
                i + nl <= hl,
                hl == hay@.len(),
                nl == needle@.len(),
                matched == (forall|k: int| 0 <= k < j
                    ==> hay@[i + k] == needle@[k]),
            decreases nl - j,
        {
            if hay.get_char(i + j) != needle.get_char(j) {
                proof {
                    assert(!(forall|k: int| 0 <= k < j + 1 ==> hay@[i + k] == needle@[k]));
                }
                matched = false;
                j = nl;
            } else {
                proof {
                    assert(matched ==> forall|k: int| 0 <= k < j + 1
                        ==> hay@[i + k] == needle@[k]);
                }
                j = j + 1;
            }
        }
        if matched {
            proof {
                assert(hay@.subrange(i as int, i + needle@.len()) =~= needle@);
            }
            return true;
        }
        proof {
            if hay@.subrange(i as int, i + needle@.len()) == needle@ {
                assert forall|k: int| 0 <= k < nl implies hay@[i + k] == needle@[k] by {
                    assert(hay@.subrange(i as int, i + needle@.len())[k] == hay@[i + k]);
                }
            }
        }
        i = i + 1;
    }
    proof {
        assert forall|k: int| 0 <= k && k + needle@.len() <= hay@.len() implies
            #[trigger] hay@.subrange(k, k + needle@.len()) != needle@ by {
            assert(k < i);
        }
    }
    false
}

/// The stderr line the filter prints for a check on a missing rule.
pub fn stderr_means_missing_rule(stderr: &str) -> (r: bool)
    ensures
        r == contains_seq(stderr@, missing_rule_marker()),
{
    contains_str(stderr, marker_missing_rule_str())
}

/// The stderr line the filter prints when the chain already exists.
pub fn stderr_means_chain_exists(stderr: &str) -> (r: bool)
    ensures
        r == contains_seq(stderr@, chain_exists_marker()),
{
    contains_str(stderr, marker_chain_exists_str())
}

/// The stderr line the filter prints for a flush of a missing chain.
pub fn stderr_means_no_chain(stderr: &str) -> (r: bool)
    ensures
        r == contains_seq(stderr@, no_chain_marker()),
{
    contains_str(stderr, marker_no_chain_str())
}

pub open spec fn missing_rule_marker() -> Seq<char> {
    "does a matching rule exist"@
}

pub open spec fn chain_exists_marker() -> Seq<char> {
    "Chain already exists"@
}

pub open spec fn no_chain_marker() -> Seq<char> {
    "No chain"@
}

fn marker_missing_rule_str() -> (r: &'static str)
    ensures
        r@ == missing_rule_marker(),
{
    "does a matching rule exist"
}

fn marker_chain_exists_str() -> (r: &'static str)
    ensures
        r@ == chain_exists_marker(),
{
    "Chain already exists"
}

fn marker_no_chain_str() -> (r: &'static str)
    ensures
        r@ == no_chain_marker(),
{
    "No chain"
}

/// What a check command's outcome says: a clean exit means the rule exists;
/// the missing-rule complaint means it does not; anything else is treated as
/// existing, so that no duplicate rule is added on an unreadable answer.
pub fn is_rule_exists(exec_output: &Result<(), String>) -> (r: bool)
    ensures
        r == match exec_output {
            Ok(_) => true,
            Err(e) => !contains_seq(e@, missing_rule_marker()),
        },
{
    match exec_output {
        Ok(_) => true,
        Err(e) => !stderr_means_missing_rule(e.as_str()),
    }
}

/// How a rule command addresses the owned chain.
#[derive(PartialEq, Eq, Structural, Clone, Copy, Debug)]
pub enum RuleMode {
    Add,
    Check,
    Del,
}

pub open spec fn mode_flag(mode: RuleMode) -> Seq<char> {
    match mode {
        RuleMode::Add => "-A"@,
        RuleMode::Check => "-C"@,
        RuleMode::Del => "-D"@,
    }
}

/// The argument vector of one DNAT rule command:
/// `<mode> <chain> -w -t nat -m comment --comment <comment> -d <mapped>
/// -j DNAT --to <original>`.
pub open spec fn route_rule_args(chain: Seq<char>, comment: Seq<char>, mode: RuleMode,
    mapped: u32, original: u32) -> Seq<Seq<char>> {
    seq![
        mode_flag(mode), chain, "-w"@, "-t"@, "nat"@, "-m"@, "comment"@, "--comment"@,
        comment, "-d"@, ipv4_str(mapped), "-j"@, "DNAT"@, "--to"@, ipv4_str(original),
    ]
}

/// The vpn gate of the prerouting jump rule, matching packets whose source
/// and destination both sit in the vpn subnet.
pub open spec fn jump_gate_args(subnet: Ipv4Subnet) -> Seq<Seq<char>> {
    seq!["-t"@, "nat"@, "-s"@, subnet_str(subnet), "-d"@, subnet_str(subnet)]
}

/// The pure half of the filter driver: it owns the chain name and the vpn
/// subnet, and yields the exact commands to run.
#[derive(Debug)]
pub struct Iptables {
    pub chain_name: String,
    pub vpn_subnet: Ipv4Subnet,
    pub disable_ipv6: bool,
    pub mock_router: bool,
}

impl Iptables {
    /// A missing chain name falls back to the owned chain's default.
    pub fn new(chain_name: Option<&str>, vpn_subnet: Ipv4Subnet, disable_ipv6: bool,
        mock_router: bool) -> (r: Iptables)
        ensures
            r.chain_name@ == match chain_name {
                Some(n) => n@,
                None => "dnsrouter"@,
            },
            r.vpn_subnet == vpn_subnet,
            r.disable_ipv6 == disable_ipv6,
            r.mock_router == mock_router,
    {
        let chain_name = match chain_name {
            Some(n) => n.to_owned(),
            None => default_chain_str().to_owned(),
        };
        Iptables { chain_name, vpn_subnet, disable_ipv6, mock_router }
    }

    /// The comment carried by a rule: the record set's domain, so the chain
    /// stays readable to an operator.
    pub fn generate_comment(record_set: &ProxyRecordSet) -> (r: String)
        ensures
            r@ == record_set.domain@,
    {
        record_set.domain.clone()
    }

    /// The full argument vector of one rule command for a routable v4
    /// record.
    pub fn gen_route_rule(&self, record: &ProxyRecord, comment: &str, mode: RuleMode)
        -> (r: Vec<String>)
        requires
            record.original_addr matches Some(o) && o is V4,
            record.mapped_addr matches Some(m) && m is V4,
        ensures
            r@.map_values(|s: String| s@) == route_rule_args(self.chain_name@, comment@, mode,
                record.mapped_addr.unwrap().v4_value(),
                record.original_addr.unwrap().v4_value()),
    {
        let mapped = match record.mapped_addr {
            Some(IpAddress::V4(v)) => v,
            _ => 0,
        };
        let original = match record.original_addr {
            Some(IpAddress::V4(v)) => v,
            _ => 0,
        };
        let mut cmd: Vec<String> = Vec::new();
        let flag = match mode {
            RuleMode::Add => "-A",
            RuleMode::Check => "-C",
            RuleMode::Del => "-D",
        };
        proof {
            reveal_strlit("-A");
            reveal_strlit("-C");
            reveal_strlit("-D");
            reveal_strlit("-w");
            reveal_strlit("-t");
            reveal_strlit("nat");
            reveal_strlit("-m");
            reveal_strlit("comment");
            reveal_strlit("--comment");
            reveal_strlit("-d");
            reveal_strlit("-j");
            reveal_strlit("DNAT");
            reveal_strlit("--to");
        }
        cmd.push(flag.to_owned());
        cmd.push(self.chain_name.clone());
        cmd.push("-w".to_owned());
        cmd.push("-t".to_owned());
        cmd.push("nat".to_owned());
        cmd.push("-m".to_owned());
        cmd.push("comment".to_owned());
        cmd.push("--comment".to_owned());
        cmd.push(comment.to_owned());
        cmd.push("-d".to_owned());
        cmd.push(ipv4_to_string(mapped));
        cmd.push("-j".to_owned());
        cmd.push("DNAT".to_owned());
        cmd.push("--to".to_owned());
        cmd.push(ipv4_to_string(original));
        proof {
            assert(cmd@.map_values(|s: String| s@) =~= route_rule_args(self.chain_name@,
                comment@, mode, mapped, original));
        }
        cmd
    }

    /// The command that creates the owned chain in the NAT table.
    pub fn create_chain_args(&self) -> (r: Vec<String>)
        ensures
            r@.map_values(|s: String| s@) == seq!["-N"@, self.chain_name@, "-t"@, "nat"@],
    {
        proof {
            reveal_strlit("-N");
            reveal_strlit("-t");
            reveal_strlit("nat");
        }
        let mut cmd: Vec<String> = Vec::new();
        cmd.push("-N".to_owned());
        cmd.push(self.chain_name.clone());
        cmd.push("-t".to_owned());
        cmd.push("nat".to_owned());
        proof {
            assert(cmd@.map_values(|s: String| s@)
                =~= seq!["-N"@, self.chain_name@, "-t"@, "nat"@]);
        }
        cmd
    }

    /// The check (or add) command of the prerouting jump rule gating the vpn
    /// subnet into the owned chain.
    pub fn jump_rule_args(&self, check: bool) -> (r: Vec<String>)
        ensures
            r@.map_values(|s: String| s@) == seq![
                if check { "-C"@ } else { "-A"@ }, "PREROUTING"@,
            ] + jump_gate_args(self.vpn_subnet) + seq!["-j"@, self.chain_name@],
    {
        proof {
            reveal_strlit("-C");
            reveal_strlit("-A");
            reveal_strlit("PREROUTING");
            reveal_strlit("-t");
            reveal_strlit("nat");
            reveal_strlit("-s");
            reveal_strlit("-d");
            reveal_strlit("-j");
        }
        let mut cmd: Vec<String> = Vec::new();
        if check {
            cmd.push("-C".to_owned());
        } else {
            cmd.push("-A".to_owned());
        }
        cmd.push("PREROUTING".to_owned());
        cmd.push("-t".to_owned());
        cmd.push("nat".to_owned());
        cmd.push("-s".to_owned());
        cmd.push(subnet_to_string(&self.vpn_subnet));
        cmd.push("-d".to_owned());
        cmd.push(subnet_to_string(&self.vpn_subnet));
        cmd.push("-j".to_owned());
        cmd.push(self.chain_name.clone());
        proof {
            assert(cmd@.map_values(|s: String| s@) =~= seq![
                if check { "-C"@ } else { "-A"@ }, "PREROUTING"@,
            ] + jump_gate_args(self.vpn_subnet) + seq!["-j"@, self.chain_name@]);
        }
        cmd
    }

    /// The command that flushes the owned chain.
    pub fn cleanup_args(&self) -> (r: Vec<String>)
        ensures
            r@.map_values(|s: String| s@) == seq!["-t"@, "nat"@, "-F"@, self.chain_name@],
    {
        proof {
            reveal_strlit("-t");
            reveal_strlit("nat");
            reveal_strlit("-F");
        }
        let mut cmd: Vec<String> = Vec::new();
        cmd.push("-t".to_owned());
        cmd.push("nat".to_owned());
        cmd.push("-F".to_owned());
        cmd.push(self.chain_name.clone());
        proof {
            assert(cmd@.map_values(|s: String| s@)
                =~= seq!["-t"@, "nat"@, "-F"@, self.chain_name@]);
        }
        cmd
    }
}

fn default_chain_str() -> (r: &'static str)
    ensures
        r@ == "dnsrouter"@,
{
    "dnsrouter"
}

} // verus!

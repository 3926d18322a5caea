//! Plain-data model of IP addresses, the mapping subnet, and the FIFO pool
//! of free synthetic IPv4 addresses.

use vstd::prelude::*;
use std::collections::VecDeque;
use vstd::arithmetic::power2::pow2;

verus! {

/// An IP address as plain data: a v4 address as its 32-bit value, a v6
/// address as its 128-bit value.
#[derive(PartialEq, Eq, Structural, Clone, Copy, Debug)]
pub enum IpAddress {
    V4(u32),
    V6(u128),
}

impl IpAddress {
    pub open spec fn is_v4(self) -> bool {
        matches!(self, IpAddress::V4(_))
    }

    pub open spec fn v4_value(self) -> u32
        recommends
            self.is_v4(),
    {
        match self {
            IpAddress::V4(v) => v,
            IpAddress::V6(_) => 0,
        }
    }
}

/// An IPv4 subnet in CIDR form: a base address and a prefix length.
#[derive(PartialEq, Eq, Structural, Clone, Copy, Debug)]
pub struct Ipv4Subnet {
    pub addr: u32,
    pub prefix: u8,
}

impl Ipv4Subnet {
    pub open spec fn wf(self) -> bool {
        self.prefix <= 32
    }

    /// Number of addresses the prefix spans.
    pub open spec fn block_size(self) -> nat {
        pow2((32 - self.prefix) as nat)
    }

    /// The network address: the base address with the host bits cleared.
    pub open spec fn network(self) -> int {
        self.addr - (self.addr as int % self.block_size() as int)
    }

    /// The usable host addresses, in ascending order. The network and
    /// broadcast addresses are excluded, except in degenerate prefixes:
    /// a prefix of 31 spans both of its two addresses and a prefix of 32
    /// spans its single address.
    pub open spec fn hosts_seq(self) -> Seq<u32> {
        if self.prefix == 32 {
            seq![self.addr]
        } else if self.prefix == 31 {
            seq![self.network() as u32, (self.network() + 1) as u32]
        } else {
            Seq::new((self.block_size() - 2) as nat, |i: int| (self.network() + 1 + i) as u32)
        }
    }

    pub open spec fn host_count(self) -> nat {
        self.hosts_seq().len()
    }

    pub fn new(addr: u32, prefix: u8) -> (r: Option<Ipv4Subnet>)
        ensures
            prefix <= 32 ==> r == Some(Ipv4Subnet { addr, prefix }),
            prefix > 32 ==> r is None,
    {
        if prefix <= 32 {
            Some(Ipv4Subnet { addr, prefix })
        } else {
            None
        }
    }
}

/// Relies on ipnet's `Ipv4Net::hosts`: the usable host addresses of the
/// subnet in ascending order. Its range starts at the network address and
/// ends at the broadcast address, and both ends are pulled in by one for
/// prefixes shorter than 31, which is exactly `Ipv4Subnet::hosts_seq`.
/// The prefix floor keeps the collected vector within memory limits.
#[verifier::external_body]
fn subnet_host_addrs(subnet: &Ipv4Subnet) -> (r: Vec<u32>)
    requires
        subnet.wf(),
        subnet.prefix >= 8,
    ensures
        r@ == subnet.hosts_seq(),
{
    let net = ipnet::Ipv4Net::new(subnet.addr.into(), subnet.prefix)
        .expect("prefix within range");
    net.hosts().map(|a| a.into()).collect()
}

/// FIFO queue of free synthetic IPv4 addresses. Allocation takes from the
/// front, release appends to the back, and rollback returns an address to
/// the front so it is reused immediately.
pub struct IpPool {
    free: VecDeque<u32>,
}

impl View for IpPool {
    type V = Seq<u32>;

    closed spec fn view(&self) -> Seq<u32> {
        self.free@
    }
}

/// What `IpPool::alloc` returns and leaves behind, on the pool's contents.
pub open spec fn alloc_spec(s: Seq<u32>) -> (Option<u32>, Seq<u32>) {
    if s.len() == 0 {
        (None, s)
    } else {
        (Some(s[0]), s.drop_first())
    }
}

/// What `IpPool::release_front` leaves behind, on the pool's contents.
pub open spec fn release_front_spec(s: Seq<u32>, ip: u32) -> Seq<u32> {
    seq![ip] + s
}

impl IpPool {
    pub fn empty() -> (r: IpPool)
        ensures
            r@ == Seq::<u32>::empty(),
    {
        IpPool { free: VecDeque::new() }
    }

    /// Builds the pool from the host addresses of the mapping subnet,
    /// preserving their order.
    pub fn from_hosts(hosts: Vec<u32>) -> (r: IpPool)
        ensures
            r@ == hosts@,
    {
        let mut free: VecDeque<u32> = VecDeque::new();
        let mut i: usize = 0;
        while i < hosts.len()
            invariant
                i <= hosts.len(),
                free@ == hosts@.subrange(0, i as int),
            decreases hosts.len() - i,
        {
            free.push_back(hosts[i]);
            i = i + 1;
            proof {
                assert(free@ =~= hosts@.subrange(0, i as int));
            }
        }
        proof {
            assert(free@ =~= hosts@);
        }
        IpPool { free }
    }

    /// Builds the pool holding every host address of the mapping subnet,
    /// in ascending order.
    pub fn for_subnet(subnet: &Ipv4Subnet) -> (r: IpPool)
        requires
            subnet.wf(),
            subnet.prefix >= 8,
        ensures
            r@ == subnet.hosts_seq(),
    {
        IpPool::from_hosts(subnet_host_addrs(subnet))
    }

    pub fn len(&self) -> (r: usize)
        ensures
            r == self@.len(),
    {
        self.free.len()
    }

    /// Takes the least recently used free address, if any.
    pub fn allocate(&mut self) -> (r: Option<u32>)
        ensures
            (r, final(self)@) == alloc_spec(old(self)@),
    {
        self.free.pop_front()
    }

    /// Returns an address to the back of the queue.
    pub fn release(&mut self, ip: u32)
        ensures
            final(self)@ == old(self)@.push(ip),
    {
        self.free.push_back(ip);
    }

    /// Returns an address to the front of the queue, so that a rolled-back
    /// allocation hands out the same address next.
    pub fn release_front(&mut self, ip: u32)
        ensures
            final(self)@ == release_front_spec(old(self)@, ip),
    {
        self.free.push_front(ip);
    }
}

/// Allocating right after a front release yields the released address and
/// restores the pool to its prior contents.
pub proof fn lemma_alloc_after_release_front(s: Seq<u32>, ip: u32)
    ensures
        alloc_spec(release_front_spec(s, ip)) == (Some(ip), s),
{
    assert(release_front_spec(s, ip).drop_first() =~= s);
}

} // verus!

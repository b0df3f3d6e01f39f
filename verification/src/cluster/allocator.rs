//! Addresses for the nodes of a generated cluster.

use crate::cluster::config::Ipv4;
use vstd::prelude::*;

verus! {

/// The addresses of one node.
pub struct NodeAddress {
    pub ip: Ipv4,
    pub tcp_port: u16,
    pub udp_port: u16,
    pub auth_udp_port: u16,
}

/// Hands out the addresses of one node after another.
pub trait AddressAllocator: Sized {
    /// Whether the current node's addresses exist.
    spec fn valid(&self) -> bool;

    /// Whether there is a node after the current one.
    spec fn can_advance(&self) -> bool;

    /// The current node's addresses.
    spec fn current(&self) -> NodeAddress;

    /// The allocator at the node after the current one.
    spec fn advanced(&self) -> Self;

    fn ip(&self) -> (ip: Ipv4)
        requires
            self.valid(),
        ensures
            ip == self.current().ip,
    ;

    fn tcp_port(&self) -> (port: u16)
        requires
            self.valid(),
        ensures
            port == self.current().tcp_port,
    ;

    fn udp_port(&self) -> (port: u16)
        requires
            self.valid(),
        ensures
            port == self.current().udp_port,
    ;

    fn auth_udp_port(&self) -> (port: u16)
        requires
            self.valid(),
        ensures
            port == self.current().auth_udp_port,
    ;

    fn advance(&mut self)
        requires
            old(self).can_advance(),
        ensures
            *final(self) == old(self).advanced(),
    ;

    /// The allocator's name in reports.
    spec fn name(&self) -> Seq<char>;

    fn mode_name(&self) -> (name: &'static str)
        ensures
            name@ == self.name(),
    ;
}

/// Gives every node two ports of one address.
pub struct PortAllocator {
    pub(crate) ip: Ipv4,
    pub(crate) base_port: u16,
    pub(crate) tcp_offset: u16,
    pub(crate) udp_offset: u16,
    pub(crate) auth_udp_offset: u16,
}

impl PortAllocator {
    /// The allocator that gives node `index` the ports from `base_port + 2 * index` on.
    pub closed spec fn at(self, ip: Ipv4, base_port: u16, index: nat) -> bool {
        &&& self.ip == ip
        &&& self.base_port == base_port
        &&& self.tcp_offset == 2 * index
        &&& self.udp_offset == 2 * index
        &&& self.auth_udp_offset == 2 * index + 1
    }

    pub fn new(ip: Ipv4, base_port: u16) -> (allocator: Self)
        ensures
            allocator.at(ip, base_port, 0),
    {
        PortAllocator { ip, base_port, tcp_offset: 0, udp_offset: 0, auth_udp_offset: 1 }
    }

    /// What an allocator at node `index` hands out.
    pub proof fn lemma_at(self, ip: Ipv4, base_port: u16, index: nat)
        requires
            self.at(ip, base_port, index),
        ensures
            self.valid() <==> base_port + 2 * index + 1 <= u16::MAX,
            self.can_advance() <==> 2 * index + 3 <= u16::MAX,
            self.valid() ==> self.current() == (NodeAddress {
                ip,
                tcp_port: (base_port + 2 * index) as u16,
                udp_port: (base_port + 2 * index) as u16,
                auth_udp_port: (base_port + 2 * index + 1) as u16,
            }),
            self.can_advance() ==> self.advanced().at(ip, base_port, index + 1),
            self.name() == "port-allocation"@,
    {
    }
}

impl AddressAllocator for PortAllocator {
    closed spec fn valid(&self) -> bool {
        &&& self.base_port + self.tcp_offset <= u16::MAX
        &&& self.base_port + self.udp_offset <= u16::MAX
        &&& self.base_port + self.auth_udp_offset <= u16::MAX
    }

    closed spec fn can_advance(&self) -> bool {
        &&& self.tcp_offset + 2 <= u16::MAX
        &&& self.udp_offset + 2 <= u16::MAX
        &&& self.auth_udp_offset + 2 <= u16::MAX
    }

    closed spec fn current(&self) -> NodeAddress {
        NodeAddress {
            ip: self.ip,
            tcp_port: (self.base_port + self.tcp_offset) as u16,
            udp_port: (self.base_port + self.udp_offset) as u16,
            auth_udp_port: (self.base_port + self.auth_udp_offset) as u16,
        }
    }

    closed spec fn advanced(&self) -> Self {
        PortAllocator {
            ip: self.ip,
            base_port: self.base_port,
            tcp_offset: (self.tcp_offset + 2) as u16,
            udp_offset: (self.udp_offset + 2) as u16,
            auth_udp_offset: (self.auth_udp_offset + 2) as u16,
        }
    }

    closed spec fn name(&self) -> Seq<char> {
        "port-allocation"@
    }

    fn ip(&self) -> Ipv4 {
        self.ip
    }

    fn tcp_port(&self) -> u16 {
        self.base_port + self.tcp_offset
    }

    fn udp_port(&self) -> u16 {
        self.base_port + self.udp_offset
    }

    fn auth_udp_port(&self) -> u16 {
        self.base_port + self.auth_udp_offset
    }

    fn advance(&mut self) {
        self.tcp_offset += 2;
        self.udp_offset += 2;
        self.auth_udp_offset += 2;
    }

    fn mode_name(&self) -> &'static str {
        "port-allocation"
    }
}

/// An address as a number, the first octet highest.
pub open spec fn ip_number(ip: Ipv4) -> nat {
    (ip.octets[0] * 16777216 + ip.octets[1] * 65536 + ip.octets[2] * 256 + ip.octets[3]) as nat
}

/// The address of a number.
pub open spec fn number_ip(number: nat) -> Ipv4 {
    Ipv4 {
        octets: [
            (number / 16777216) as u8,
            (number / 65536 % 256) as u8,
            (number / 256 % 256) as u8,
            (number % 256) as u8,
        ],
    }
}

/// An address is told by its number.
pub proof fn law_ip_number_round_trips(ip: Ipv4)
    ensures
        number_ip(ip_number(ip)) == ip,
{
    let a = ip.octets[0] as int;
    let b = ip.octets[1] as int;
    let c = ip.octets[2] as int;
    let d = ip.octets[3] as int;
    let number = ip_number(ip) as int;
    assert(number == ((a * 256 + b) * 256 + c) * 256 + d);
    assert(number / 256 == (a * 256 + b) * 256 + c && number % 256 == d);
    assert(number / 65536 == a * 256 + b);
    assert(number / 16777216 == a);
    assert((number / 256) % 256 == c);
    assert((number / 65536) % 256 == b);
    let back = number_ip(ip_number(ip)).octets;
    assert(back[0] == a && back[1] == b && back[2] == c && back[3] == d);
    assert(back =~= ip.octets);
}

fn ip_to_u32(ip: Ipv4) -> (number: u32)
    ensures
        number == ip_number(ip),
{
    ip.octets[0] as u32 * 16777216 + ip.octets[1] as u32 * 65536 + ip.octets[2] as u32 * 256
        + ip.octets[3] as u32
}

fn u32_to_ip(number: u32) -> (ip: Ipv4)
    ensures
        ip == number_ip(number as nat),
{
    let ip = Ipv4 {
        octets: [
            (number / 16777216) as u8,
            (number / 65536 % 256) as u8,
            (number / 256 % 256) as u8,
            (number % 256) as u8,
        ],
    };
    assert(ip.octets =~= number_ip(number as nat).octets);
    ip
}

/// Gives every node an address of its own, with the same ports.
pub struct IpAllocator {
    pub(crate) base_ip: Ipv4,
    pub(crate) ip_offset: u32,
    pub(crate) tcp_port: u16,
    pub(crate) udp_port: u16,
    pub(crate) auth_udp_port: u16,
}

impl IpAllocator {
    /// The allocator that gives node `index` the address `index` above `base_ip`.
    pub closed spec fn at(
        self,
        base_ip: Ipv4,
        tcp_port: u16,
        udp_port: u16,
        auth_udp_port: u16,
        index: nat,
    ) -> bool {
        &&& self.base_ip == base_ip
        &&& self.tcp_port == tcp_port
        &&& self.udp_port == udp_port
        &&& self.auth_udp_port == auth_udp_port
        &&& self.ip_offset == index
    }

    pub fn new(base_ip: Ipv4, tcp_port: u16, udp_port: u16, auth_udp_port: u16) -> (allocator: Self)
        ensures
            allocator.at(base_ip, tcp_port, udp_port, auth_udp_port, 0),
    {
        IpAllocator { base_ip, ip_offset: 0, tcp_port, udp_port, auth_udp_port }
    }

    /// What an allocator at node `index` hands out.
    pub proof fn lemma_at(
        self,
        base_ip: Ipv4,
        tcp_port: u16,
        udp_port: u16,
        auth_udp_port: u16,
        index: nat,
    )
        requires
            self.at(base_ip, tcp_port, udp_port, auth_udp_port, index),
        ensures
            self.valid() <==> ip_number(base_ip) + index <= u32::MAX,
            self.can_advance() <==> index < u32::MAX,
            self.current() == (NodeAddress {
                ip: number_ip(ip_number(base_ip) + index),
                tcp_port,
                udp_port,
                auth_udp_port,
            }),
            self.can_advance() ==> self.advanced().at(
                base_ip,
                tcp_port,
                udp_port,
                auth_udp_port,
                index + 1,
            ),
            self.name() == "ip-allocation"@,
    {
    }
}

impl AddressAllocator for IpAllocator {
    closed spec fn valid(&self) -> bool {
        ip_number(self.base_ip) + self.ip_offset <= u32::MAX
    }

    closed spec fn can_advance(&self) -> bool {
        self.ip_offset < u32::MAX
    }

    closed spec fn current(&self) -> NodeAddress {
        NodeAddress {
            ip: number_ip(ip_number(self.base_ip) + self.ip_offset as nat),
            tcp_port: self.tcp_port,
            udp_port: self.udp_port,
            auth_udp_port: self.auth_udp_port,
        }
    }

    closed spec fn advanced(&self) -> Self {
        IpAllocator {
            base_ip: self.base_ip,
            ip_offset: (self.ip_offset + 1) as u32,
            tcp_port: self.tcp_port,
            udp_port: self.udp_port,
            auth_udp_port: self.auth_udp_port,
        }
    }

    closed spec fn name(&self) -> Seq<char> {
        "ip-allocation"@
    }

    fn ip(&self) -> Ipv4 {
        u32_to_ip(ip_to_u32(self.base_ip) + self.ip_offset)
    }

    fn tcp_port(&self) -> u16 {
        self.tcp_port
    }

    fn udp_port(&self) -> u16 {
        self.udp_port
    }

    fn auth_udp_port(&self) -> u16 {
        self.auth_udp_port
    }

    fn advance(&mut self) {
        self.ip_offset += 1;
    }

    fn mode_name(&self) -> &'static str {
        "ip-allocation"
    }
}

/// One of the two ways to hand out addresses.
pub enum Allocator {
    Ports(PortAllocator),
    Ips(IpAllocator),
}

/// Whether an address is a loopback address.
pub open spec fn is_loopback(ip: Ipv4) -> bool {
    ip.octets[0] == 127
}

/// The addresses of node `index` of a cluster.
pub open spec fn node_address(base_ip: Ipv4, base_port: u16, index: nat) -> NodeAddress {
    if is_loopback(base_ip) {
        NodeAddress {
            ip: base_ip,
            tcp_port: (base_port + 2 * index) as u16,
            udp_port: (base_port + 2 * index) as u16,
            auth_udp_port: (base_port + 2 * index + 1) as u16,
        }
    } else {
        NodeAddress {
            ip: number_ip(ip_number(base_ip) + index),
            tcp_port: base_port,
            udp_port: base_port,
            auth_udp_port: (base_port + 1) as u16,
        }
    }
}

/// Whether `count` nodes have addresses, counted from `base_ip` and `base_port`.
pub open spec fn addresses_fit(base_ip: Ipv4, base_port: u16, count: nat) -> bool {
    if is_loopback(base_ip) {
        &&& count > 0 ==> base_port + 2 * count - 1 <= u16::MAX
        &&& 2 * count + 1 <= u16::MAX
    } else {
        &&& base_port < u16::MAX
        &&& count > 0 ==> ip_number(base_ip) + count - 1 <= u32::MAX
        &&& count <= u32::MAX
    }
}

impl Allocator {
    /// Whether the allocator is at node `index`.
    pub open spec fn at(self, base_ip: Ipv4, base_port: u16, index: nat) -> bool {
        match self {
            Allocator::Ports(allocator) => is_loopback(base_ip) && allocator.at(base_ip, base_port, index),
            Allocator::Ips(allocator) => !is_loopback(base_ip) && base_port < u16::MAX && allocator.at(
                base_ip,
                base_port,
                base_port,
                (base_port + 1) as u16,
                index,
            ),
        }
    }

    /// What an allocator at node `index` hands out, where the addresses fit.
    pub proof fn lemma_at(self, base_ip: Ipv4, base_port: u16, index: nat, count: nat)
        requires
            self.at(base_ip, base_port, index),
            addresses_fit(base_ip, base_port, count),
            index < count,
        ensures
            self.valid(),
            self.can_advance(),
            self.current() == node_address(base_ip, base_port, index),
            self.advanced().at(base_ip, base_port, index + 1),
    {
        match self {
            Allocator::Ports(allocator) => allocator.lemma_at(base_ip, base_port, index),
            Allocator::Ips(allocator) => allocator.lemma_at(
                base_ip,
                base_port,
                base_port,
                (base_port + 1) as u16,
                index,
            ),
        }
    }
}

impl AddressAllocator for Allocator {
    open spec fn valid(&self) -> bool {
        match self {
            Allocator::Ports(allocator) => allocator.valid(),
            Allocator::Ips(allocator) => allocator.valid(),
        }
    }

    open spec fn can_advance(&self) -> bool {
        match self {
            Allocator::Ports(allocator) => allocator.can_advance(),
            Allocator::Ips(allocator) => allocator.can_advance(),
        }
    }

    open spec fn current(&self) -> NodeAddress {
        match self {
            Allocator::Ports(allocator) => allocator.current(),
            Allocator::Ips(allocator) => allocator.current(),
        }
    }

    open spec fn advanced(&self) -> Self {
        match self {
            Allocator::Ports(allocator) => Allocator::Ports(allocator.advanced()),
            Allocator::Ips(allocator) => Allocator::Ips(allocator.advanced()),
        }
    }

    open spec fn name(&self) -> Seq<char> {
        match self {
            Allocator::Ports(allocator) => allocator.name(),
            Allocator::Ips(allocator) => allocator.name(),
        }
    }

    fn ip(&self) -> Ipv4 {
        match self {
            Allocator::Ports(allocator) => allocator.ip(),
            Allocator::Ips(allocator) => allocator.ip(),
        }
    }

    fn tcp_port(&self) -> u16 {
        match self {
            Allocator::Ports(allocator) => allocator.tcp_port(),
            Allocator::Ips(allocator) => allocator.tcp_port(),
        }
    }

    fn udp_port(&self) -> u16 {
        match self {
            Allocator::Ports(allocator) => allocator.udp_port(),
            Allocator::Ips(allocator) => allocator.udp_port(),
        }
    }

    fn auth_udp_port(&self) -> u16 {
        match self {
            Allocator::Ports(allocator) => allocator.auth_udp_port(),
            Allocator::Ips(allocator) => allocator.auth_udp_port(),
        }
    }

    fn advance(&mut self) {
        match self {
            Allocator::Ports(allocator) => allocator.advance(),
            Allocator::Ips(allocator) => allocator.advance(),
        }
    }

    fn mode_name(&self) -> &'static str {
        match self {
            Allocator::Ports(allocator) => allocator.mode_name(),
            Allocator::Ips(allocator) => allocator.mode_name(),
        }
    }
}

/// Ports of one address on a loopback address, addresses of their own elsewhere.
pub fn create_allocator(base_ip: Ipv4, base_port: u16) -> (allocator: Allocator)
    requires
        is_loopback(base_ip) || base_port < u16::MAX,
    ensures
        allocator.at(base_ip, base_port, 0),
        allocator is Ports <==> is_loopback(base_ip),
{
    if base_ip.octets[0] == 127 {
        Allocator::Ports(PortAllocator::new(base_ip, base_port))
    } else {
        Allocator::Ips(IpAllocator::new(base_ip, base_port, base_port, base_port + 1))
    }
}

/// Whether `count` nodes have addresses, counted from `base_ip` and `base_port`.
pub fn has_addresses(base_ip: Ipv4, base_port: u16, count: usize) -> (fits: bool)
    ensures
        fits == addresses_fit(base_ip, base_port, count as nat),
{
    if base_ip.octets[0] == 127 {
        if count > 32767 {
            return false;
        }
        count == 0 || base_port as usize + 2 * count - 1 <= 65535
    } else {
        let number: u64 = ip_to_u32(base_ip) as u64;
        if base_port == u16::MAX || count as u64 > u32::MAX as u64 {
            return false;
        }
        count == 0 || number + count as u64 - 1 <= u32::MAX as u64
    }
}

proof fn lemma_number_ip(number: nat)
    requires
        number <= u32::MAX,
    ensures
        ip_number(number_ip(number)) == number,
{
    let low = number / 256;
    let middle = low / 256;
    let high = middle / 256;
    assert(number / 65536 == middle);
    assert(number / 16777216 == high);
    assert(high < 256);
    let octets = number_ip(number).octets;
    assert(octets[0] == high);
    assert(octets[1] == middle % 256);
    assert(octets[2] == low % 256);
    assert(octets[3] == number % 256);
}

/// No two nodes of a cluster share an address and a port.
pub proof fn law_nodes_do_not_collide(
    base_ip: Ipv4,
    base_port: u16,
    count: nat,
    first: nat,
    second: nat,
)
    requires
        addresses_fit(base_ip, base_port, count),
        first < second < count,
    ensures
        ({
            let a = node_address(base_ip, base_port, first);
            let b = node_address(base_ip, base_port, second);
            a.ip != b.ip || (a.tcp_port != b.tcp_port && a.udp_port != b.udp_port && a.udp_port
                != b.auth_udp_port && a.auth_udp_port != b.udp_port && a.auth_udp_port
                != b.auth_udp_port)
        }),
{
    if !is_loopback(base_ip) {
        let base = ip_number(base_ip);
        let a = number_ip(base + first);
        let b = number_ip(base + second);
        lemma_number_ip(base + first);
        lemma_number_ip(base + second);
        assert(ip_number(a) != ip_number(b));
    }
}

/// The first node has the base address. On a loopback address each next node is two
/// ports further on the same address; on any other it has the next address and the
/// same ports. The authenticated port is always the one behind the plain ports.
pub proof fn law_addresses_follow_each_other(base_ip: Ipv4, base_port: u16, count: nat, index: nat)
    requires
        addresses_fit(base_ip, base_port, count),
        index + 1 < count,
    ensures
        ({
            let first = node_address(base_ip, base_port, 0);
            let here = node_address(base_ip, base_port, index);
            let next = node_address(base_ip, base_port, index + 1);
            &&& first.ip == base_ip
            &&& first.tcp_port == base_port
            &&& here.udp_port == here.tcp_port
            &&& here.auth_udp_port == here.tcp_port + 1
            &&& base_ip.octets[0] == 127 ==> next.ip == here.ip && next.tcp_port == here.tcp_port + 2
            &&& base_ip.octets[0] != 127 ==> next.tcp_port == here.tcp_port && ip_number(next.ip)
                == ip_number(here.ip) + 1
        }),
{
    law_ip_number_round_trips(base_ip);
    if base_ip.octets[0] != 127 {
        lemma_number_round_trips(ip_number(base_ip) + index);
        lemma_number_round_trips(ip_number(base_ip) + index + 1);
    }
}

/// A number below the address space is the number of its address.
proof fn lemma_number_round_trips(number: nat)
    requires
        number <= u32::MAX,
    ensures
        ip_number(number_ip(number)) == number,
{
}

} // verus!

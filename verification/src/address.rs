use vstd::prelude::*;

verus! {

/// An IP address held as plain bits: an IPv4 address as its 32 bits and an
/// IPv6 address as its 128 bits, most significant octet first.
#[derive(Clone, Copy, Debug, PartialEq, Eq, Structural)]
pub enum IpAddress {
    V4(u32),
    V6(u128),
}

/// A socket address: an IP address with a port, and for IPv6 the flow
/// information and the scope identifier.
#[allow(inconsistent_fields)]
#[derive(Clone, Copy, Debug, PartialEq, Eq, Structural)]
pub enum SockAddr {
    V4 { ip: u32, port: u16 },
    V6 { ip: u128, port: u16, flowinfo: u32, scope_id: u32 },
}

/// The socket address made of `ip` and `port`; an IPv6 one carries no flow
/// information and scope 0.
pub open spec fn sock_addr_of(ip: IpAddress, port: u16) -> SockAddr {
    match ip {
        IpAddress::V4(a) => SockAddr::V4 { ip: a, port },
        IpAddress::V6(a) => SockAddr::V6 { ip: a, port, flowinfo: 0, scope_id: 0 },
    }
}

/// The IP address part of a socket address.
pub open spec fn ip_of(addr: SockAddr) -> IpAddress {
    match addr {
        SockAddr::V4 { ip, .. } => IpAddress::V4(ip),
        SockAddr::V6 { ip, .. } => IpAddress::V6(ip),
    }
}

/// The port part of a socket address.
pub open spec fn port_of(addr: SockAddr) -> u16 {
    match addr {
        SockAddr::V4 { port, .. } => port,
        SockAddr::V6 { port, .. } => port,
    }
}

/// A socket address keeps its IP address whole (all 32 or 128 bits) and its
/// port; an IPv6 one carries no flow information and scope 0.
pub proof fn lemma_sock_addr_keeps_ip_and_port(ip: IpAddress, port: u16)
    ensures
        ip_of(sock_addr_of(ip, port)) == ip,
        port_of(sock_addr_of(ip, port)) == port,
        sock_addr_of(ip, port) matches SockAddr::V6 { flowinfo, scope_id, .. } ==> flowinfo == 0
            && scope_id == 0,
{
}

impl SockAddr {
    /// Builds the socket address of `ip` and `port`.
    pub fn new(ip: IpAddress, port: u16) -> (addr: SockAddr)
        ensures
            addr == sock_addr_of(ip, port),
            ip_of(addr) == ip,
            port_of(addr) == port,
            addr matches SockAddr::V6 { flowinfo, scope_id, .. } ==> flowinfo == 0 && scope_id
                == 0,
    {
        match ip {
            IpAddress::V4(a) => SockAddr::V4 { ip: a, port },
            IpAddress::V6(a) => SockAddr::V6 { ip: a, port, flowinfo: 0, scope_id: 0 },
        }
    }

    /// The IP address part.
    pub fn ip(&self) -> (ip: IpAddress)
        ensures
            ip == ip_of(*self),
    {
        match *self {
            SockAddr::V4 { ip, .. } => IpAddress::V4(ip),
            SockAddr::V6 { ip, .. } => IpAddress::V6(ip),
        }
    }

    /// The port part.
    pub fn port(&self) -> (port: u16)
        ensures
            port == port_of(*self),
    {
        match *self {
            SockAddr::V4 { port, .. } => port,
            SockAddr::V6 { port, .. } => port,
        }
    }
}

/// The addresses to listen on for one interface: each of its IP addresses
/// with port 0, in the order the interface lists them.
pub open spec fn interface_bind_plan(ips: Seq<IpAddress>) -> Seq<SockAddr> {
    ips.map_values(|ip: IpAddress| sock_addr_of(ip, 0))
}

/// The addresses to listen on for a list of interfaces: the plan of each
/// interface, one after the other.
pub open spec fn bind_plan(interfaces: Seq<Seq<IpAddress>>) -> Seq<SockAddr>
    decreases interfaces.len(),
{
    if interfaces.len() == 0 {
        Seq::empty()
    } else {
        bind_plan(interfaces.drop_last()) + interface_bind_plan(interfaces.last())
    }
}

/// Every address of every interface is offered, with port 0.
pub proof fn lemma_bind_plan_offers_every_address(interfaces: Seq<Seq<IpAddress>>, i: int, j: int)
    requires
        0 <= i < interfaces.len(),
        0 <= j < interfaces[i].len(),
    ensures
        bind_plan(interfaces).contains(sock_addr_of(interfaces[i][j], 0)),
    decreases interfaces.len(),
{
    let last = interfaces.len() - 1;
    if i == last {
        let k = bind_plan(interfaces.drop_last()).len() + j;
        assert(bind_plan(interfaces)[k] == sock_addr_of(interfaces[i][j], 0));
    } else {
        lemma_bind_plan_offers_every_address(interfaces.drop_last(), i, j);
        let prefix = bind_plan(interfaces.drop_last());
        let k = choose|k: int| 0 <= k < prefix.len() && prefix[k] == sock_addr_of(interfaces[i][j], 0);
        assert(bind_plan(interfaces)[k] == prefix[k]);
    }
}

/// Every offered address is an address of some interface, with port 0.
pub proof fn lemma_bind_plan_offers_only_interface_addresses(
    interfaces: Seq<Seq<IpAddress>>,
    k: int,
)
    requires
        0 <= k < bind_plan(interfaces).len(),
    ensures
        exists|i: int, j: int|
            0 <= i < interfaces.len() && 0 <= j < interfaces[i].len() && bind_plan(interfaces)[k]
                == sock_addr_of(#[trigger] interfaces[i][j], 0),
    decreases interfaces.len(),
{
    let prefix = bind_plan(interfaces.drop_last());
    let last = interfaces.len() - 1;
    if k < prefix.len() {
        lemma_bind_plan_offers_only_interface_addresses(interfaces.drop_last(), k);
        let (i, j) = choose|i: int, j: int|
            0 <= i < interfaces.drop_last().len() && 0 <= j < interfaces.drop_last()[i].len()
                && prefix[k] == sock_addr_of(#[trigger] interfaces.drop_last()[i][j], 0);
        assert(interfaces[i][j] == interfaces.drop_last()[i][j]);
    } else {
        let j = k - prefix.len();
        assert(bind_plan(interfaces)[k] == sock_addr_of(interfaces[last][j], 0));
    }
}

/// Every offered address is listened on with exactly the IP address of an
/// interface (whole) and port 0; and every interface address is offered.
pub proof fn lemma_bind_plan_ips_are_interface_ips(interfaces: Seq<Seq<IpAddress>>)
    ensures
        forall|k: int|
            0 <= k < bind_plan(interfaces).len() ==> port_of(#[trigger] bind_plan(interfaces)[k])
                == 0 && exists|i: int, j: int|
                0 <= i < interfaces.len() && 0 <= j < interfaces[i].len() && ip_of(
                    bind_plan(interfaces)[k],
                ) == #[trigger] interfaces[i][j],
        forall|i: int, j: int|
            0 <= i < interfaces.len() && 0 <= j < interfaces[i].len() ==> exists|k: int|
                0 <= k < bind_plan(interfaces).len() && ip_of(#[trigger] bind_plan(interfaces)[k])
                    == #[trigger] interfaces[i][j] && port_of(bind_plan(interfaces)[k]) == 0,
{
    assert forall|k: int| 0 <= k < bind_plan(interfaces).len() implies port_of(
        #[trigger] bind_plan(interfaces)[k],
    ) == 0 && exists|i: int, j: int|
        0 <= i < interfaces.len() && 0 <= j < interfaces[i].len() && ip_of(
            bind_plan(interfaces)[k],
        ) == #[trigger] interfaces[i][j] by {
        lemma_bind_plan_offers_only_interface_addresses(interfaces, k);
        let (i, j) = choose|i: int, j: int|
            0 <= i < interfaces.len() && 0 <= j < interfaces[i].len() && bind_plan(interfaces)[k]
                == sock_addr_of(#[trigger] interfaces[i][j], 0);
        lemma_sock_addr_keeps_ip_and_port(interfaces[i][j], 0);
    }
    assert forall|i: int, j: int|
        0 <= i < interfaces.len() && 0 <= j < interfaces[i].len() implies exists|k: int|
        0 <= k < bind_plan(interfaces).len() && ip_of(#[trigger] bind_plan(interfaces)[k])
            == #[trigger] interfaces[i][j] && port_of(bind_plan(interfaces)[k]) == 0 by {
        lemma_bind_plan_offers_every_address(interfaces, i, j);
        lemma_sock_addr_keeps_ip_and_port(interfaces[i][j], 0);
        let k = choose|k: int|
            0 <= k < bind_plan(interfaces).len() && bind_plan(interfaces)[k] == sock_addr_of(
                interfaces[i][j],
                0,
            );
        assert(ip_of(bind_plan(interfaces)[k]) == interfaces[i][j]);
    }
}

/// The number of offered addresses is the number of interface addresses.
pub open spec fn address_count(interfaces: Seq<Seq<IpAddress>>) -> nat
    decreases interfaces.len(),
{
    if interfaces.len() == 0 {
        0
    } else {
        address_count(interfaces.drop_last()) + interfaces.last().len()
    }
}

/// Each interface address is offered once: the plan is exactly as long as
/// the interfaces' address lists together.
pub proof fn lemma_bind_plan_length(interfaces: Seq<Seq<IpAddress>>)
    ensures
        bind_plan(interfaces).len() == address_count(interfaces),
    decreases interfaces.len(),
{
    if interfaces.len() > 0 {
        lemma_bind_plan_length(interfaces.drop_last());
    }
}

/// The IP addresses of each interface, as plain sequences.
pub open spec fn interface_views(interfaces: Seq<Vec<IpAddress>>) -> Seq<Seq<IpAddress>> {
    interfaces.map_values(|v: Vec<IpAddress>| v@)
}

/// Every address of every interface, with port 0: the addresses on which a
/// channel offers to be reached. An interface may list no address.
pub fn bind_candidates(interfaces: &Vec<Vec<IpAddress>>) -> (plan: Vec<SockAddr>)
    ensures
        plan@ == bind_plan(interface_views(interfaces@)),
{
    let mut plan: Vec<SockAddr> = Vec::new();
    let mut i: usize = 0;
    while i < interfaces.len()
        invariant
            i <= interfaces.len(),
            plan@ == bind_plan(interface_views(interfaces@.take(i as int))),
        decreases interfaces.len() - i,
    {
        let ips = &interfaces[i];
        let ghost before = plan@;
        let mut j: usize = 0;
        while j < ips.len()
            invariant
                j <= ips.len(),
                plan@ == before + interface_bind_plan(ips@.take(j as int)),
            decreases ips.len() - j,
        {
            plan.push(SockAddr::new(ips[j], 0));
            assert(ips@.take(j + 1) == ips@.take(j as int).push(ips@[j as int]));
            assert(interface_bind_plan(ips@.take(j + 1)) == interface_bind_plan(
                ips@.take(j as int),
            ).push(sock_addr_of(ips@[j as int], 0)));
            j = j + 1;
        }
        assert(ips@.take(ips@.len() as int) == ips@);
        let ghost next = interface_views(interfaces@.take(i + 1));
        assert(next.drop_last() == interface_views(interfaces@.take(i as int)));
        assert(next.last() == ips@);
        i = i + 1;
    }
    assert(interfaces@.take(interfaces@.len() as int) == interfaces@);
    plan
}

} // verus!

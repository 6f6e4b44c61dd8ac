//! Simulated IP and socket addresses, modelled as plain values.
//!
//! The registry hands out IPv4 addresses from the private block
//! 192.168.0.0/16: the high byte of a 16-bit allocation counter forms the
//! third octet and the low byte the fourth.

use vstd::prelude::*;

verus! {

/// An IP address: four octets for IPv4, eight 16-bit segments for IPv6.
#[derive(Clone, Copy, PartialEq, Eq, Structural, Debug, Hash)]
pub enum IpAddr {
    V4(u8, u8, u8, u8),
    V6(u16, u16, u16, u16, u16, u16, u16, u16),
}

/// An IP address together with a port.
#[derive(Clone, Copy, PartialEq, Eq, Structural, Debug, Hash)]
pub struct SocketAddr {
    pub ip: IpAddr,
    pub port: u16,
}

impl IpAddr {
    /// The all-zero address of either family (0.0.0.0 or ::).
    pub open spec fn spec_is_unspecified(&self) -> bool {
        *self == IpAddr::V4(0, 0, 0, 0) || *self == IpAddr::V6(0, 0, 0, 0, 0, 0, 0, 0)
    }

    /// 127.0.0.0/8 or ::1.
    pub open spec fn spec_is_loopback(&self) -> bool {
        match *self {
            IpAddr::V4(a, _, _, _) => a == 127,
            IpAddr::V6(a, b, c, d, e, f, g, h) => a == 0 && b == 0 && c == 0 && d == 0 && e == 0
                && f == 0 && g == 0 && h == 1,
        }
    }

    #[verifier::when_used_as_spec(spec_is_unspecified)]
    pub fn is_unspecified(&self) -> (r: bool)
        ensures
            r == self.spec_is_unspecified(),
    {
        match *self {
            IpAddr::V4(a, b, c, d) => a == 0 && b == 0 && c == 0 && d == 0,
            IpAddr::V6(a, b, c, d, e, f, g, h) => a == 0 && b == 0 && c == 0 && d == 0 && e == 0
                && f == 0 && g == 0 && h == 0,
        }
    }

    #[verifier::when_used_as_spec(spec_is_loopback)]
    pub fn is_loopback(&self) -> (r: bool)
        ensures
            r == self.spec_is_loopback(),
    {
        match *self {
            IpAddr::V4(a, _, _, _) => a == 127,
            IpAddr::V6(a, b, c, d, e, f, g, h) => a == 0 && b == 0 && c == 0 && d == 0 && e == 0
                && f == 0 && g == 0 && h == 1,
        }
    }
}

impl SocketAddr {
    pub fn new(ip: IpAddr, port: u16) -> (r: SocketAddr)
        ensures
            r.ip == ip,
            r.port == port,
    {
        SocketAddr { ip, port }
    }
}

/// The simulated address issued for allocation counter value `id`: the
/// counter's high byte is the third octet and its low byte the fourth.
pub open spec fn spec_sim_addr(id: u16) -> IpAddr {
    IpAddr::V4(192, 168, (id / 256) as u8, (id % 256) as u8)
}

/// Whether `ip` lies in the simulated subnet 192.168.0.0/16.
pub open spec fn in_sim_subnet(ip: IpAddr) -> bool {
    match ip {
        IpAddr::V4(a, b, _, _) => a == 192 && b == 168,
        IpAddr::V6(_, _, _, _, _, _, _, _) => false,
    }
}

/// Builds the simulated address for counter value `id`.
pub fn sim_addr(id: u16) -> (r: IpAddr)
    ensures
        r == spec_sim_addr(id),
        in_sim_subnet(r),
{
    proof {
        assert((id >> 8) as u8 == (id / 256) as u8 && (id & 0xFF) as u8 == (id % 256) as u8)
            by (bit_vector);
    }
    IpAddr::V4(192, 168, (id >> 8) as u8, (id & 0xFF) as u8)
}

/// Distinct counter values yield distinct simulated addresses.
pub proof fn lemma_sim_addr_injective(id1: u16, id2: u16)
    requires
        id1 != id2,
    ensures
        spec_sim_addr(id1) != spec_sim_addr(id2),
{
    if spec_sim_addr(id1) == spec_sim_addr(id2) {
        assert(id1 / 256 <= 255 && id2 / 256 <= 255);
        assert(id1 == 256 * (id1 / 256) + (id1 % 256));
        assert(id2 == 256 * (id2 / 256) + (id2 % 256));
    }
}

} // verus!

//! A deterministic, in-process network simulation core: hostname resolution
//! against a per-simulation name registry, uniform "resolve to an address"
//! inputs, and the bind/send/receive/release lifecycle of simulated UDP
//! endpoints, all driven through an explicit simulation context.

mod addr;
mod parse;
mod dns;
mod net;

pub use addr::IpAddr;
pub use addr::SocketAddr;
pub use parse::parse_ipv4_str;
pub use parse::parse_ipv6_str;
pub use parse::parse_ip_str;
pub use parse::host_literal_str;
pub use parse::split_host_port_str;
pub use parse::parse_port_str;
pub use dns::Dns;
pub use dns::DnsView;
pub use dns::Sealed;
pub use dns::ToIpAddr;
pub use dns::ToIpAddrs;
pub use dns::ToSocketAddrs;
pub use dns::HostPattern;
pub use net::BindError;
pub use net::Datagram;
pub use net::EndpointView;
pub use net::Protocol;
pub use net::SocketPair;
pub use net::World;
pub use net::WorldView;
pub use net::udp::UdpSocket;

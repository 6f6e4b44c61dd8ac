//! The simulated UDP endpoint: bound to one resolved local address,
//! sending whole datagrams through the simulation context and draining its
//! own inbound queue. The context is passed explicitly; the endpoint owns
//! its receiving side structurally, so one logical receiver drains it.

use vstd::prelude::*;
use vstd::slice::slice_to_vec;
use crate::addr::IpAddr;
use crate::addr::SocketAddr;
use crate::dns::ToSocketAddrs;
use crate::net::BindError;
use crate::net::Datagram;
use crate::net::EndpointView;
use crate::net::Protocol;
use crate::net::SocketPair;
use crate::net::World;
use crate::net::WorldView;
use crate::net::deliver;
use crate::net::find_ep;
use crate::net::lemma_find_ep;

verus! {

/// A simulated UDP socket, identified by the host that bound it and its
/// bound local address. The bound address never changes.
pub struct UdpSocket {
    host: IpAddr,
    local: SocketAddr,
}

impl UdpSocket {
    /// The host this socket was bound on.
    pub closed spec fn spec_host(&self) -> IpAddr {
        self.host
    }

    /// The local address this socket is bound to.
    pub closed spec fn spec_local(&self) -> SocketAddr {
        self.local
    }

    /// The source address a datagram from this socket carries: a socket
    /// bound to the unspecified address sends as its host's own address,
    /// keeping the bound port.
    pub open spec fn spec_source(&self, w: WorldView) -> SocketAddr {
        if self.spec_local().ip.spec_is_unspecified() {
            SocketAddr { ip: w.current, port: self.spec_local().port }
        } else {
            self.spec_local()
        }
    }

    /// The bound local address.
    pub fn local_addr(&self) -> (r: SocketAddr)
        ensures
            r == self.spec_local(),
    {
        self.local
    }

    /// Binds a new simulated UDP socket on the active host to the address
    /// `addr` resolves to. Binding to the unspecified address, loopback,
    /// or the host's own address succeeds if that address is free; binding
    /// to any other concrete routable address is unsupported.
    pub fn bind<A: ToSocketAddrs>(world: &mut World, addr: A) -> (r: Result<UdpSocket, BindError>)
        requires
            old(world).wf(),
            addr.sock_resolvable(old(world)@.dns),
        ensures
            final(world).wf(),
            final(world)@.dns == old(world)@.dns,
            final(world)@.current == old(world)@.current,
            ({
                let a = addr.sock_spec(old(world)@.dns);
                let supported = a.ip.spec_is_unspecified() || a.ip.spec_is_loopback() || a.ip
                    == old(world)@.current;
                match r {
                    Ok(sock) => supported && !old(world)@.bound_at(old(world)@.current, a)
                        && sock.spec_host() == old(world)@.current && sock.spec_local() == a && final(world)@.endpoints == old(world)@.endpoints.push(
                        (EndpointView {
                            host: old(world)@.current,
                            local: a,
                            inbound: Seq::empty(),
                        }),
                    ),
                    Err(BindError::Unsupported) => !supported && final(world)@ == old(world)@,
                    Err(BindError::InUse) => supported && old(world)@.bound_at(
                        old(world)@.current,
                        a,
                    ) && final(world)@ == old(world)@,
                }
            }),
    {
        let a = world.sock_addr_of(&addr);
        let host = world.current_host();
        match world.register(a) {
            Ok(_) => Ok(UdpSocket { host, local: a }),
            Err(e) => Err(e),
        }
    }

    /// Sends `buf` as one datagram to the address `target` resolves to and
    /// reports the full payload length; datagrams are never sent in part.
    /// The datagram reaches the first deliverable endpoint's queue, or is
    /// dropped if none is bound. Sending an endpoint a datagram from its
    /// own address is a programming error, excluded by contract.
    pub fn send_to<A: ToSocketAddrs>(&self, world: &mut World, buf: &[u8], target: A) -> (r: usize)
        requires
            old(world).wf(),
            target.sock_resolvable(old(world)@.dns),
            self.spec_source(old(world)@) != target.sock_spec(old(world)@.dns),
        ensures
            final(world).wf(),
            r == buf@.len(),
            final(world)@ == deliver(
                old(world)@,
                self.spec_source(old(world)@),
                target.sock_spec(old(world)@.dns),
                buf@,
            ),
    {
        let dst = world.sock_addr_of(&target);
        let src = if self.local.ip.is_unspecified() {
            SocketAddr { ip: world.current_host(), port: self.local.port }
        } else {
            self.local
        };
        let pair = SocketPair::new(src, dst);
        let payload = slice_to_vec(buf);
        world.send_message(pair, Protocol::Udp(Datagram { payload }))
    }

    /// Takes the oldest datagram delivered to this socket, copying at most
    /// `buf.len()` of its bytes into the front of `buf` — a datagram
    /// longer than the buffer is silently truncated — and returns the
    /// number of bytes copied with the origin address. Returns `None` when
    /// nothing has been delivered yet: the caller's task suspends until
    /// the scheduler routes an envelope here, and a caller that gives up
    /// finds queue and registry unchanged.
    pub fn recv_from(&self, world: &mut World, buf: &mut Vec<u8>) -> (r: Option<(usize, SocketAddr)>)
        requires
            old(world).wf(),
        ensures
            final(world).wf(),
            final(world)@.dns == old(world)@.dns,
            final(world)@.current == old(world)@.current,
            final(buf)@.len() == old(buf)@.len(),
            ({
                let i = find_ep(old(world)@.endpoints, self.spec_host(), self.spec_local());
                if i >= 0 && old(world)@.endpoints[i].inbound.len() > 0 {
                    let m = old(world)@.endpoints[i].inbound[0];
                    let n = if old(buf)@.len() <= m.0.len() {
                        old(buf)@.len() as int
                    } else {
                        m.0.len() as int
                    };
                    &&& r == Some((n as usize, m.1))
                    &&& final(buf)@ == m.0.subrange(0, n) + old(buf)@.subrange(
                        n,
                        old(buf)@.len() as int,
                    )
                    &&& final(world)@.endpoints == old(world)@.endpoints.update(
                        i,
                        (EndpointView {
                            host: old(world)@.endpoints[i].host,
                            local: old(world)@.endpoints[i].local,
                            inbound: old(world)@.endpoints[i].inbound.drop_first(),
                        }),
                    )
                } else {
                    r is None && final(world)@ == old(world)@ && final(buf)@ == old(buf)@
                }
            }),
    {
        match world.pop_inbound(self.host, self.local) {
            Some(m) => {
                let (dgram, origin) = m;
                let n = if buf.len() <= dgram.payload.len() {
                    buf.len()
                } else {
                    dgram.payload.len()
                };
                let mut i: usize = 0;
                while i < n
                    invariant
                        0 <= i <= n,
                        n <= buf@.len(),
                        n <= dgram.payload@.len(),
                        buf@.len() == old(buf)@.len(),
                        forall|k: int| 0 <= k < i ==> buf@[k] == dgram.payload@[k],
                        forall|k: int| i <= k < buf@.len() ==> buf@[k] == old(buf)@[k],
                    decreases n - i,
                {
                    let b = dgram.payload[i];
                    buf[i] = b;
                    i += 1;
                }
                proof {
                    assert(buf@ =~= dgram.payload@.subrange(0, n as int) + old(buf)@.subrange(
                        n as int,
                        old(buf)@.len() as int,
                    ));
                }
                Some((n, origin))
            },
            None => None,
        }
    }

    /// Releases the endpoint: unregisters its local address from its
    /// host's transport stack. Consuming the socket makes teardown happen
    /// exactly once per bound endpoint, and releasing after the context
    /// has already dropped the binding is a no-op.
    pub fn release(self, world: &mut World)
        requires
            old(world).wf(),
        ensures
            final(world).wf(),
            final(world)@.dns == old(world)@.dns,
            final(world)@.current == old(world)@.current,
            ({
                let i = find_ep(old(world)@.endpoints, self.spec_host(), self.spec_local());
                if i >= 0 {
                    final(world)@.endpoints == old(world)@.endpoints.remove(i)
                } else {
                    final(world)@ == old(world)@
                }
            }),
    {
        world.unregister(self.host, self.local);
    }
}

/// Law: releasing a bound endpoint unbinds its address — after the
/// release, the same (host, address) pair is no longer bound, so a new
/// bind of that address on that host passes the in-use check.
pub proof fn lemma_rebind_after_release(w: WorldView, host: IpAddr, local: SocketAddr)
    requires
        w.wf(),
        find_ep(w.endpoints, host, local) >= 0,
    ensures
        find_ep(w.endpoints.remove(find_ep(w.endpoints, host, local)), host, local) == -1,
{
    let i = find_ep(w.endpoints, host, local);
    lemma_find_ep(w.endpoints, host, local);
    let eps2 = w.endpoints.remove(i);
    w.endpoints.remove_ensures(i);
    lemma_find_ep(eps2, host, local);
    assert forall|k: int| 0 <= k < eps2.len() implies !((#[trigger] eps2[k]).host == host
        && eps2[k].local == local) by {
        let k0 = if k < i {
            k
        } else {
            k + 1
        };
        assert(eps2[k] == w.endpoints[k0]);
        if w.endpoints[k0].host == host && w.endpoints[k0].local == local {
            if k0 < i {
                assert(!(w.endpoints[k0].host == w.endpoints[i].host && w.endpoints[k0].local
                    == w.endpoints[i].local));
            } else {
                assert(!(w.endpoints[i].host == w.endpoints[k0].host && w.endpoints[i].local
                    == w.endpoints[k0].local));
            }
        }
    }
}

} // verus!

//! The simulation context: the shared name registry, the active host, and
//! every bound transport endpoint with its inbound queue. Endpoint
//! operations run against an explicitly passed context handle, so separate
//! simulations never share state.

pub mod udp;

use vstd::prelude::*;
use crate::addr::IpAddr;
use crate::addr::SocketAddr;
use crate::dns::Dns;
use crate::dns::DnsView;
use crate::dns::ToIpAddr;
use crate::dns::ToIpAddrs;
use crate::dns::ToSocketAddrs;
use crate::dns::find_addr;

verus! {

/// A protocol-tagged message payload: one datagram's bytes.
pub struct Datagram {
    pub payload: Vec<u8>,
}

impl View for Datagram {
    type V = Seq<u8>;

    open spec fn view(&self) -> Seq<u8> {
        self.payload@
    }
}

/// The transport kind a payload travels under. Datagrams are the UDP
/// variant; a stream-segment variant for TCP would join it without
/// changing the tag's consumers.
pub enum Protocol {
    Udp(Datagram),
}

impl Protocol {
    /// The bytes the envelope carries.
    pub open spec fn payload_view(&self) -> Seq<u8> {
        match self {
            Protocol::Udp(d) => d@,
        }
    }
}

/// The identity of one flow: its two distinct socket addresses. A host is
/// never made to talk to itself through this identity; constructing a
/// pair with equal ends is a programming error, excluded by contract.
#[derive(Debug, Copy, Clone, Hash, Eq, PartialEq, Structural)]
pub struct SocketPair {
    pub local: SocketAddr,
    pub remote: SocketAddr,
}

impl SocketPair {
    pub open spec fn wf(self) -> bool {
        self.local != self.remote
    }

    pub fn new(local: SocketAddr, remote: SocketAddr) -> (r: SocketPair)
        requires
            local != remote,
        ensures
            r.local == local,
            r.remote == remote,
            r.wf(),
    {
        SocketPair { local, remote }
    }
}

/// One bound endpoint: the host that bound it, its local address, and its
/// inbound queue of (payload, origin) envelopes in delivery order.
struct Endpoint {
    host: IpAddr,
    local: SocketAddr,
    inbound: Vec<(Datagram, SocketAddr)>,
}

/// Spec-level state of one bound endpoint.
#[verifier::ext_equal]
pub struct EndpointView {
    pub host: IpAddr,
    pub local: SocketAddr,
    pub inbound: Seq<(Seq<u8>, SocketAddr)>,
}

impl View for Endpoint {
    type V = EndpointView;

    closed spec fn view(&self) -> EndpointView {
        EndpointView {
            host: self.host,
            local: self.local,
            inbound: self.inbound@.map_values(|m: (Datagram, SocketAddr)| (m.0@, m.1)),
        }
    }
}

/// Index of the first endpoint bound as (`host`, `local`), or -1.
pub open spec fn find_ep(eps: Seq<EndpointView>, host: IpAddr, local: SocketAddr) -> int
    decreases eps.len(),
{
    if eps.len() == 0 {
        -1
    } else if eps[0].host == host && eps[0].local == local {
        0
    } else {
        let r = find_ep(eps.drop_first(), host, local);
        if r < 0 {
            -1
        } else {
            r + 1
        }
    }
}

pub proof fn lemma_find_ep(eps: Seq<EndpointView>, host: IpAddr, local: SocketAddr)
    ensures
        (find_ep(eps, host, local) == -1) <==> (forall|k: int|
            0 <= k < eps.len() ==> !((#[trigger] eps[k]).host == host && eps[k].local == local)),
        find_ep(eps, host, local) != -1 ==> {
            let i = find_ep(eps, host, local);
            &&& 0 <= i < eps.len()
            &&& eps[i].host == host && eps[i].local == local
            &&& forall|k: int|
                0 <= k < i ==> !((#[trigger] eps[k]).host == host && eps[k].local == local)
        },
    decreases eps.len(),
{
    if eps.len() == 0 {
    } else if eps[0].host == host && eps[0].local == local {
    } else {
        let t = eps.drop_first();
        lemma_find_ep(t, host, local);
        if find_ep(t, host, local) == -1 {
            assert forall|k: int| 0 <= k < eps.len() implies !((#[trigger] eps[k]).host == host
                && eps[k].local == local) by {
                if k >= 1 {
                    assert(!(t[k - 1].host == host && t[k - 1].local == local));
                }
            }
        } else {
            let r = find_ep(t, host, local);
            assert(eps[r + 1] == t[r]);
            assert forall|k: int| 0 <= k < r + 1 implies !((#[trigger] eps[k]).host == host
                && eps[k].local == local) by {
                if k >= 1 {
                    assert(!(t[k - 1].host == host && t[k - 1].local == local));
                }
            }
        }
    }
}

/// Whether a datagram addressed to `dst` is deliverable to endpoint `ep`:
/// the port must match, and the address must either match the bound
/// address exactly or, for an endpoint bound to the unspecified address,
/// be its host's own address.
pub open spec fn ep_matches(ep: EndpointView, dst: SocketAddr) -> bool {
    ep.local.port == dst.port && (ep.local.ip == dst.ip || (ep.local.ip.spec_is_unspecified()
        && ep.host == dst.ip))
}

/// Index of the first endpoint a datagram addressed to `dst` reaches, or -1.
pub open spec fn find_match(eps: Seq<EndpointView>, dst: SocketAddr) -> int
    decreases eps.len(),
{
    if eps.len() == 0 {
        -1
    } else if ep_matches(eps[0], dst) {
        0
    } else {
        let r = find_match(eps.drop_first(), dst);
        if r < 0 {
            -1
        } else {
            r + 1
        }
    }
}

pub proof fn lemma_find_match(eps: Seq<EndpointView>, dst: SocketAddr)
    ensures
        (find_match(eps, dst) == -1) <==> (forall|k: int|
            0 <= k < eps.len() ==> !ep_matches(#[trigger] eps[k], dst)),
        find_match(eps, dst) != -1 ==> {
            let i = find_match(eps, dst);
            &&& 0 <= i < eps.len()
            &&& ep_matches(eps[i], dst)
            &&& forall|k: int| 0 <= k < i ==> !ep_matches(#[trigger] eps[k], dst)
        },
    decreases eps.len(),
{
    if eps.len() == 0 {
    } else if ep_matches(eps[0], dst) {
    } else {
        let t = eps.drop_first();
        lemma_find_match(t, dst);
        if find_match(t, dst) == -1 {
            assert forall|k: int| 0 <= k < eps.len() implies !ep_matches(
                #[trigger] eps[k],
                dst,
            ) by {
                if k >= 1 {
                    assert(!ep_matches(t[k - 1], dst));
                }
            }
        } else {
            let r = find_match(t, dst);
            assert(eps[r + 1] == t[r]);
            assert forall|k: int| 0 <= k < r + 1 implies !ep_matches(#[trigger] eps[k], dst) by {
                if k >= 1 {
                    assert(!ep_matches(t[k - 1], dst));
                }
            }
        }
    }
}

/// Spec-level state of a simulation context.
#[verifier::ext_equal]
pub struct WorldView {
    pub dns: DnsView,
    pub current: IpAddr,
    pub endpoints: Seq<EndpointView>,
}

impl WorldView {
    /// The registry is well formed and no (host, local address) pair is
    /// bound twice.
    pub open spec fn wf(self) -> bool {
        &&& self.dns.wf()
        &&& forall|i: int, j: int|
            0 <= i < j < self.endpoints.len() ==> !((#[trigger] self.endpoints[i]).host == (
            #[trigger] self.endpoints[j]).host && self.endpoints[i].local
                == self.endpoints[j].local)
    }

    /// Whether (`host`, `local`) is currently bound.
    pub open spec fn bound_at(self, host: IpAddr, local: SocketAddr) -> bool {
        find_ep(self.endpoints, host, local) >= 0
    }
}

/// The state a context moves to when an envelope with `payload` is routed
/// from `src` to `dst`: the first deliverable endpoint's queue grows by
/// (payload, src); with no deliverable endpoint, or an unroutable
/// destination, the envelope is dropped and the state is unchanged.
pub open spec fn deliver(w: WorldView, src: SocketAddr, dst: SocketAddr, payload: Seq<u8>) -> WorldView {
    let i = find_match(w.endpoints, dst);
    if dst.ip.spec_is_unspecified() || i < 0 {
        w
    } else {
        WorldView {
            dns: w.dns,
            current: w.current,
            endpoints: w.endpoints.update(
                i,
                EndpointView {
                    host: w.endpoints[i].host,
                    local: w.endpoints[i].local,
                    inbound: w.endpoints[i].inbound.push((payload, src)),
                },
            ),
        }
    }
}

/// Failure to register a local address with a host's transport stack.
#[derive(Debug, Copy, Clone, Hash, Eq, PartialEq, Structural)]
pub enum BindError {
    /// The address is a concrete routable address that is neither the
    /// host's own, loopback, nor unspecified.
    Unsupported,
    /// The address is already bound on this host.
    InUse,
}

/// The per-simulation context: the shared name registry, the active
/// host's address, and every bound endpoint with its inbound queue.
pub struct World {
    dns: Dns,
    current: IpAddr,
    endpoints: Vec<Endpoint>,
}

impl View for World {
    type V = WorldView;

    closed spec fn view(&self) -> WorldView {
        WorldView {
            dns: self.dns@,
            current: self.current,
            endpoints: self.endpoints@.map_values(|e: Endpoint| e@),
        }
    }
}

impl World {
    pub open spec fn wf(&self) -> bool {
        self@.wf()
    }

    /// Creates a context with an empty registry and no active host; the
    /// active host starts as the unspecified address until `set_host` runs.
    pub fn new() -> (r: World)
        ensures
            r.wf(),
            r@.dns.entries.len() == 0,
            r@.dns.next == 1,
            r@.current == IpAddr::V4(0, 0, 0, 0),
            r@.endpoints.len() == 0,
    {
        let w = World { dns: Dns::new(), current: IpAddr::V4(0, 0, 0, 0), endpoints: Vec::new() };
        proof {
            assert(w@.endpoints =~= Seq::<EndpointView>::empty());
        }
        w
    }

    /// Makes the host that `host` resolves to the active one, registering
    /// it on first reference; the scheduler switches hosts this way.
    pub fn set_host<A: ToIpAddr>(&mut self, host: A) -> (r: IpAddr)
        requires
            old(self).wf(),
            host.resolvable(old(self)@.dns),
        ensures
            final(self).wf(),
            r == host.ip_spec(old(self)@.dns),
            final(self)@.dns == host.dns_after(old(self)@.dns),
            final(self)@.current == r,
            final(self)@.endpoints == old(self)@.endpoints,
    {
        let ip = self.dns.lookup(host);
        self.current = ip;
        ip
    }

    /// The active host's address.
    pub fn current_host(&self) -> (r: IpAddr)
        ensures
            r == self@.current,
    {
        self.current
    }

    /// Resolves a single-address input against the context's registry.
    pub fn lookup<A: ToIpAddr>(&mut self, addr: A) -> (r: IpAddr)
        requires
            old(self).wf(),
            addr.resolvable(old(self)@.dns),
        ensures
            final(self).wf(),
            r == addr.ip_spec(old(self)@.dns),
            final(self)@.dns == addr.dns_after(old(self)@.dns),
            final(self)@.current == old(self)@.current,
            final(self)@.endpoints == old(self)@.endpoints,
    {
        self.dns.lookup(addr)
    }

    /// Resolves a multi-address input against the context's registry.
    pub fn lookup_many<A: ToIpAddrs>(&mut self, addrs: A) -> (r: Vec<IpAddr>)
        requires
            old(self).wf(),
            addrs.resolvable_many(old(self)@.dns),
        ensures
            final(self).wf(),
            r@ == addrs.ips_spec(old(self)@.dns),
            final(self)@.dns == addrs.dns_after_many(old(self)@.dns),
            final(self)@.current == old(self)@.current,
            final(self)@.endpoints == old(self)@.endpoints,
    {
        self.dns.lookup_many(addrs)
    }

    /// Reverse lookup in the context's registry.
    pub fn reverse(&self, addr: IpAddr) -> (r: String)
        requires
            self.wf(),
            find_addr(self@.dns.entries, addr) is Some,
        ensures
            Some(r@) == find_addr(self@.dns.entries, addr),
    {
        self.dns.reverse(addr)
    }

    /// Resolves a socket-address input against the registry, reading only.
    pub fn sock_addr_of<A: ToSocketAddrs>(&self, addr: &A) -> (r: SocketAddr)
        requires
            self.wf(),
            addr.sock_resolvable(self@.dns),
        ensures
            r == addr.sock_spec(self@.dns),
    {
        addr.to_socket_addr(&self.dns)
    }

    /// Registers `local` with the active host's transport stack. Only the
    /// unspecified address, loopback, or the host's own address can be
    /// bound, and only once per host.
    pub fn register(&mut self, local: SocketAddr) -> (r: Result<(), BindError>)
        requires
            old(self).wf(),
        ensures
            final(self).wf(),
            final(self)@.dns == old(self)@.dns,
            final(self)@.current == old(self)@.current,
            match r {
                Ok(_) => (local.ip.spec_is_unspecified() || local.ip.spec_is_loopback()
                    || local.ip == old(self)@.current) && !old(self)@.bound_at(
                    old(self)@.current,
                    local,
                ) && final(self)@.endpoints == old(self)@.endpoints.push(
                    (EndpointView {
                        host: old(self)@.current,
                        local,
                        inbound: Seq::empty(),
                    }),
                ),
                Err(BindError::Unsupported) => !(local.ip.spec_is_unspecified()
                    || local.ip.spec_is_loopback() || local.ip == old(self)@.current) && final(self)@ == old(self)@,
                Err(BindError::InUse) => (local.ip.spec_is_unspecified()
                    || local.ip.spec_is_loopback() || local.ip == old(self)@.current) && old(
                    self,
                )@.bound_at(old(self)@.current, local) && final(self)@ == old(self)@,
            },
    {
        if !(local.ip.is_unspecified() || local.ip.is_loopback() || local.ip == self.current) {
            return Err(BindError::Unsupported);
        }
        let ghost eps = self@.endpoints;
        let mut i: usize = 0;
        proof {
            lemma_find_ep(eps, self@.current, local);
        }
        while i < self.endpoints.len()
            invariant
                old(self).wf(),
                self@ == old(self)@,
                eps == self@.endpoints,
                local.ip.spec_is_unspecified() || local.ip.spec_is_loopback() || local.ip == old(
                    self,
                )@.current,
                0 <= i <= eps.len(),
                forall|k: int|
                    0 <= k < i ==> !((#[trigger] eps[k]).host == self@.current && eps[k].local
                        == local),
            decreases self.endpoints@.len() - i,
        {
            proof {
                assert(eps[i as int] == self.endpoints@[i as int]@);
            }
            if self.endpoints[i].host == self.current && self.endpoints[i].local == local {
                proof {
                    assert(eps[i as int].host == self@.current && eps[i as int].local == local);
                    lemma_find_ep(eps, self@.current, local);
                }
                return Err(BindError::InUse);
            }
            i += 1;
        }
        proof {
            lemma_find_ep(eps, self@.current, local);
        }
        let host = self.current;
        self.endpoints.push(Endpoint { host, local, inbound: Vec::new() });
        proof {
            assert(self@.endpoints =~~= eps.push(
                EndpointView { host: old(self)@.current, local, inbound: Seq::empty() },
            ));
            assert forall|a: int, b: int| 0 <= a < b < self@.endpoints.len() implies !((
            #[trigger] self@.endpoints[a]).host == (#[trigger] self@.endpoints[b]).host
                && self@.endpoints[a].local == self@.endpoints[b].local) by {
                if b == eps.len() {
                    assert(!(eps[a].host == old(self)@.current && eps[a].local == local));
                }
            }
        }
        Ok(())
    }

    /// Unregisters (`host`, `local`) if it is bound; a release after the
    /// endpoint is already gone is a no-op.
    pub fn unregister(&mut self, host: IpAddr, local: SocketAddr)
        requires
            old(self).wf(),
        ensures
            final(self).wf(),
            final(self)@.dns == old(self)@.dns,
            final(self)@.current == old(self)@.current,
            ({
                let i = find_ep(old(self)@.endpoints, host, local);
                if i >= 0 {
                    final(self)@.endpoints == old(self)@.endpoints.remove(i)
                } else {
                    final(self)@ == old(self)@
                }
            }),
    {
        let ghost eps = self@.endpoints;
        let mut i: usize = 0;
        proof {
            lemma_find_ep(eps, host, local);
        }
        while i < self.endpoints.len()
            invariant
                old(self).wf(),
                self@ == old(self)@,
                eps == self@.endpoints,
                0 <= i <= eps.len(),
                forall|k: int|
                    0 <= k < i ==> !((#[trigger] eps[k]).host == host && eps[k].local == local),
            decreases self.endpoints@.len() - i,
        {
            proof {
                assert(eps[i as int] == self.endpoints@[i as int]@);
            }
            if self.endpoints[i].host == host && self.endpoints[i].local == local {
                proof {
                    assert(eps[i as int].host == host && eps[i as int].local == local);
                    lemma_find_ep(eps, host, local);
                    eps.remove_ensures(i as int);
                }
                self.endpoints.remove(i);
                proof {
                    assert(self@.endpoints =~~= eps.remove(i as int));
                    eps.remove_ensures(i as int);
                    assert forall|a: int, b: int| 0 <= a < b < self@.endpoints.len() implies !((
                    #[trigger] self@.endpoints[a]).host == (#[trigger] self@.endpoints[b]).host
                        && self@.endpoints[a].local == self@.endpoints[b].local) by {
                        let a0 = if a < i as int {
                            a
                        } else {
                            a + 1
                        };
                        let b0 = if b < i as int {
                            b
                        } else {
                            b + 1
                        };
                        assert(self@.endpoints[a] == eps[a0]);
                        assert(self@.endpoints[b] == eps[b0]);
                    }
                }
                return ;
            }
            i += 1;
        }
        proof {
            lemma_find_ep(eps, host, local);
        }
    }

    /// Hands an envelope to the context for routing between the pair's two
    /// ends; the first deliverable endpoint's queue receives it, in order.
    pub fn send_message(&mut self, pair: SocketPair, message: Protocol) -> (n: usize)
        requires
            old(self).wf(),
            pair.wf(),
        ensures
            final(self).wf(),
            final(self)@ == deliver(old(self)@, pair.local, pair.remote, message.payload_view()),
            n == message.payload_view().len(),
    {
        let ghost eps = self@.endpoints;
        let Protocol::Udp(dgram) = message;
        let n = dgram.payload.len();
        let dst = pair.remote;
        if dst.ip.is_unspecified() {
            return n;
        }
        let mut i: usize = 0;
        proof {
            lemma_find_match(eps, dst);
        }
        while i < self.endpoints.len()
            invariant
                old(self).wf(),
                self@ == old(self)@,
                eps == self@.endpoints,
                dst == pair.remote,
                !dst.ip.spec_is_unspecified(),
                dgram@ == message.payload_view(),
                n == message.payload_view().len(),
                0 <= i <= eps.len(),
                forall|k: int| 0 <= k < i ==> !ep_matches(#[trigger] eps[k], dst),
            decreases self.endpoints@.len() - i,
        {
            proof {
                assert(eps[i as int] == self.endpoints@[i as int]@);
            }
            let hit = self.endpoints[i].local.port == dst.port && (self.endpoints[i].local.ip
                == dst.ip || (self.endpoints[i].local.ip.is_unspecified() && self.endpoints[i].host
                == dst.ip));
            if hit {
                proof {
                    assert(ep_matches(eps[i as int], dst));
                    lemma_find_match(eps, dst);
                }
                let mut ep = self.endpoints.remove(i);
                ep.inbound.push((dgram, pair.local));
                self.endpoints.insert(i, ep);
                proof {
                    let updated = EndpointView {
                        host: eps[i as int].host,
                        local: eps[i as int].local,
                        inbound: eps[i as int].inbound.push((dgram@, pair.local)),
                    };
                    assert(ep@.inbound =~= updated.inbound);
                    assert(ep@ =~~= updated);
                    assert(self@.endpoints =~~= eps.update(i as int, updated));
                    assert forall|a: int, b: int| 0 <= a < b < self@.endpoints.len() implies !((
                    #[trigger] self@.endpoints[a]).host == (#[trigger] self@.endpoints[b]).host
                        && self@.endpoints[a].local == self@.endpoints[b].local) by {
                        assert(self@.endpoints[a].host == eps[a].host && self@.endpoints[a].local
                            == eps[a].local);
                        assert(self@.endpoints[b].host == eps[b].host && self@.endpoints[b].local
                            == eps[b].local);
                    }
                }
                return n;
            }
            i += 1;
        }
        proof {
            lemma_find_match(eps, dst);
        }
        n
    }

    /// Takes the oldest envelope queued for (`host`, `local`), if any.
    pub fn pop_inbound(&mut self, host: IpAddr, local: SocketAddr) -> (r: Option<
        (Datagram, SocketAddr),
    >)
        requires
            old(self).wf(),
        ensures
            final(self).wf(),
            final(self)@.dns == old(self)@.dns,
            final(self)@.current == old(self)@.current,
            ({
                let i = find_ep(old(self)@.endpoints, host, local);
                if i >= 0 && old(self)@.endpoints[i].inbound.len() > 0 {
                    let m = old(self)@.endpoints[i].inbound[0];
                    &&& r is Some
                    &&& (r->Some_0.0@, r->Some_0.1) == m
                    &&& final(self)@.endpoints == old(self)@.endpoints.update(
                        i,
                        (EndpointView {
                            host: old(self)@.endpoints[i].host,
                            local: old(self)@.endpoints[i].local,
                            inbound: old(self)@.endpoints[i].inbound.drop_first(),
                        }),
                    )
                } else {
                    r is None && final(self)@ == old(self)@
                }
            }),
    {
        let ghost eps = self@.endpoints;
        let mut i: usize = 0;
        proof {
            lemma_find_ep(eps, host, local);
        }
        while i < self.endpoints.len()
            invariant
                old(self).wf(),
                self@ == old(self)@,
                eps == self@.endpoints,
                0 <= i <= eps.len(),
                forall|k: int|
                    0 <= k < i ==> !((#[trigger] eps[k]).host == host && eps[k].local == local),
            decreases self.endpoints@.len() - i,
        {
            proof {
                assert(eps[i as int] == self.endpoints@[i as int]@);
            }
            if self.endpoints[i].host == host && self.endpoints[i].local == local {
                proof {
                    assert(eps[i as int].host == host && eps[i as int].local == local);
                    lemma_find_ep(eps, host, local);
                }
                if self.endpoints[i].inbound.len() == 0 {
                    proof {
                        assert(eps[i as int].inbound.len() == 0);
                    }
                    return None;
                }
                let mut ep = self.endpoints.remove(i);
                let m = ep.inbound.remove(0);
                self.endpoints.insert(i, ep);
                proof {
                    let updated = EndpointView {
                        host: eps[i as int].host,
                        local: eps[i as int].local,
                        inbound: eps[i as int].inbound.drop_first(),
                    };
                    assert(ep@.inbound =~= updated.inbound);
                    assert(ep@ =~~= updated);
                    assert(self@.endpoints =~~= eps.update(i as int, updated));
                    assert((m.0@, m.1) == eps[i as int].inbound[0]);
                    assert forall|a: int, b: int| 0 <= a < b < self@.endpoints.len() implies !((
                    #[trigger] self@.endpoints[a]).host == (#[trigger] self@.endpoints[b]).host
                        && self@.endpoints[a].local == self@.endpoints[b].local) by {
                        assert(self@.endpoints[a].host == eps[a].host && self@.endpoints[a].local
                            == eps[a].local);
                        assert(self@.endpoints[b].host == eps[b].host && self@.endpoints[b].local
                            == eps[b].local);
                    }
                }
                return Some(m);
            }
            i += 1;
        }
        proof {
            lemma_find_ep(eps, host, local);
        }
        None
    }
}

} // verus!

//! The name registry: hostname to simulated-address mapping with lazy,
//! insertion-ordered allocation, reverse lookup, and the capability traits
//! that let literals, strings, host/port pairs and patterns all resolve
//! through one interface.

use vstd::prelude::*;
use crate::addr::IpAddr;
use crate::addr::SocketAddr;
use crate::addr::spec_sim_addr;
use crate::addr::sim_addr;
use crate::addr::in_sim_subnet;
use crate::addr::lemma_sim_addr_injective;
use crate::parse::spec_parse_ip;
use crate::parse::spec_host_literal;
use crate::parse::spec_split_host_port;
use crate::parse::spec_parse_port;
use crate::parse::parse_ip_str;
use crate::parse::host_literal_str;
use crate::parse::split_host_port_str;
use crate::parse::lemma_last_idx_unique;
use indexmap::IndexMap;
use vstd::pervasive::unreached;

verus! {

// ---------------------------------------------------------------------------
// The insertion-ordered map that backs the registry (outside crate)
// ---------------------------------------------------------------------------

#[verifier::external_type_specification]
#[verifier::external_body]
#[verifier::reject_recursive_types(K)]
#[verifier::reject_recursive_types(V)]
#[verifier::reject_recursive_types(S)]
pub struct ExIndexMap<K, V, S>(IndexMap<K, V, S>);

/// The key-value pairs an insertion-ordered map holds, oldest first.
pub uninterp spec fn map_entries(m: IndexMap<String, u16>) -> Seq<(Seq<char>, u16)>;

/// The value stored under the first entry whose key is `k`, if any.
pub open spec fn find_key(es: Seq<(Seq<char>, u16)>, k: Seq<char>) -> Option<u16>
    decreases es.len(),
{
    if es.len() == 0 {
        None
    } else if es[0].0 == k {
        Some(es[0].1)
    } else {
        find_key(es.drop_first(), k)
    }
}

/// The hostname of the first entry whose allocated address is `ip`, if any.
pub open spec fn find_addr(es: Seq<(Seq<char>, u16)>, ip: IpAddr) -> Option<Seq<char>>
    decreases es.len(),
{
    if es.len() == 0 {
        None
    } else if spec_sim_addr(es[0].1) == ip {
        Some(es[0].0)
    } else {
        find_addr(es.drop_first(), ip)
    }
}

pub proof fn lemma_find_key(es: Seq<(Seq<char>, u16)>, k: Seq<char>)
    ensures
        (find_key(es, k) is None) <==> (forall|i: int|
            0 <= i < es.len() ==> (#[trigger] es[i]).0 != k),
        find_key(es, k) is Some ==> exists|i: int|
            0 <= i < es.len() && (#[trigger] es[i]).0 == k && es[i].1 == find_key(es, k)->Some_0
                && (forall|j: int| 0 <= j < i ==> (#[trigger] es[j]).0 != k),
    decreases es.len(),
{
    if es.len() == 0 {
    } else if es[0].0 == k {
        assert(0 <= 0 < es.len() && es[0].0 == k && es[0].1 == find_key(es, k)->Some_0 && (
        forall|j: int| 0 <= j < 0 ==> (#[trigger] es[j]).0 != k));
    } else {
        let t = es.drop_first();
        lemma_find_key(t, k);
        if find_key(t, k) is None {
            assert forall|i: int| 0 <= i < es.len() implies (#[trigger] es[i]).0 != k by {
                if i >= 1 {
                    assert(t[i - 1].0 != k);
                }
            }
        } else {
            let i = choose|i: int|
                0 <= i < t.len() && (#[trigger] t[i]).0 == k && t[i].1 == find_key(t, k)->Some_0
                    && (forall|j: int| 0 <= j < i ==> (#[trigger] t[j]).0 != k);
            assert(es[i + 1] == t[i]);
            assert forall|j: int| 0 <= j < i + 1 implies (#[trigger] es[j]).0 != k by {
                if j >= 1 {
                    assert(t[j - 1].0 != k);
                }
            }
        }
    }
}

pub proof fn lemma_find_addr(es: Seq<(Seq<char>, u16)>, ip: IpAddr)
    ensures
        (find_addr(es, ip) is None) <==> (forall|i: int|
            0 <= i < es.len() ==> spec_sim_addr((#[trigger] es[i]).1) != ip),
        find_addr(es, ip) is Some ==> exists|i: int|
            0 <= i < es.len() && spec_sim_addr((#[trigger] es[i]).1) == ip && es[i].0 == find_addr(
                es,
                ip,
            )->Some_0 && (forall|j: int|
                0 <= j < i ==> spec_sim_addr((#[trigger] es[j]).1) != ip),
    decreases es.len(),
{
    if es.len() == 0 {
    } else if spec_sim_addr(es[0].1) == ip {
        assert(0 <= 0 < es.len() && spec_sim_addr(es[0].1) == ip && es[0].0 == find_addr(
            es,
            ip,
        )->Some_0 && (forall|j: int| 0 <= j < 0 ==> spec_sim_addr((#[trigger] es[j]).1) != ip));
    } else {
        let t = es.drop_first();
        lemma_find_addr(t, ip);
        if find_addr(t, ip) is None {
            assert forall|i: int| 0 <= i < es.len() implies spec_sim_addr((#[trigger] es[i]).1)
                != ip by {
                if i >= 1 {
                    assert(spec_sim_addr(t[i - 1].1) != ip);
                }
            }
        } else {
            let i = choose|i: int|
                0 <= i < t.len() && spec_sim_addr((#[trigger] t[i]).1) == ip && t[i].0 == find_addr(
                    t,
                    ip,
                )->Some_0 && (forall|j: int| 0 <= j < i ==> spec_sim_addr((#[trigger] t[j]).1) != ip);
            assert(es[i + 1] == t[i]);
            assert forall|j: int| 0 <= j < i + 1 implies spec_sim_addr((#[trigger] es[j]).1)
                != ip by {
                if j >= 1 {
                    assert(spec_sim_addr(t[j - 1].1) != ip);
                }
            }
        }
    }
}

pub proof fn lemma_find_key_push(es: Seq<(Seq<char>, u16)>, p: (Seq<char>, u16), k: Seq<char>)
    ensures
        find_key(es.push(p), k) == (if find_key(es, k) is Some {
            find_key(es, k)
        } else if p.0 == k {
            Some(p.1)
        } else {
            None
        }),
    decreases es.len(),
{
    if es.len() == 0 {
        assert(es.push(p).len() == 1);
        assert(es.push(p)[0] == p);
        assert(es.push(p).drop_first() =~= Seq::<(Seq<char>, u16)>::empty());
        assert(find_key(Seq::<(Seq<char>, u16)>::empty(), k) is None);
    } else {
        assert(es.push(p).len() == es.len() + 1);
        assert(es.push(p)[0] == es[0]);
        assert(es.push(p).drop_first() =~= es.drop_first().push(p));
        lemma_find_key_push(es.drop_first(), p, k);
    }
}

/// Relies on indexmap::IndexMap::new: a fresh map holds no entries.
#[verifier::external_body]
fn im_new() -> (m: IndexMap<String, u16>)
    ensures
        map_entries(m) == Seq::<(Seq<char>, u16)>::empty(),
{
    IndexMap::new()
}

/// Relies on indexmap::IndexMap::get: returns the value stored under `k`,
/// if the key is present.
#[verifier::external_body]
fn im_get(m: &IndexMap<String, u16>, k: &str) -> (r: Option<u16>)
    ensures
        r == find_key(map_entries(*m), k@),
{
    m.get(k).copied()
}

/// Relies on indexmap::IndexMap::insert: a key that is not yet present is
/// appended at the end of the map's insertion order.
#[verifier::external_body]
fn im_insert(m: &mut IndexMap<String, u16>, k: &str, v: u16)
    requires
        find_key(map_entries(*old(m)), k@) is None,
    ensures
        map_entries(*final(m)) == map_entries(*old(m)).push((k@, v)),
{
    m.insert(k.to_owned(), v);
}

/// Relies on indexmap::IndexMap::iter: entries are yielded in insertion
/// order; this copies them out as owned pairs.
#[verifier::external_body]
fn im_entries_vec(m: &IndexMap<String, u16>) -> (r: Vec<(String, u16)>)
    ensures
        r@.len() == map_entries(*m).len(),
        forall|i: int|
            0 <= i < r@.len() ==> (#[trigger] r@[i]).0@ == map_entries(*m)[i].0 && r@[i].1
                == map_entries(*m)[i].1,
{
    m.iter().map(|(k, v)| (k.clone(), *v)).collect()
}

// ---------------------------------------------------------------------------
// The registry
// ---------------------------------------------------------------------------

/// Spec-level state of a registry: the allocation counter and the entries
/// in insertion order.
pub struct DnsView {
    pub next: int,
    pub entries: Seq<(Seq<char>, u16)>,
}

impl DnsView {
    /// The counter starts at 1 and the entry registered `i`-th holds
    /// counter value `i + 1`, so addresses are distinct and never reused.
    pub open spec fn wf(self) -> bool {
        &&& self.next == self.entries.len() + 1
        &&& 1 <= self.next <= 0xFFFF
        &&& forall|i: int| 0 <= i < self.entries.len() ==> (#[trigger] self.entries[i]).1 == i + 1
        &&& forall|i: int, j: int|
            0 <= i < j < self.entries.len() ==> (#[trigger] self.entries[i]).0 != (
            #[trigger] self.entries[j]).0
    }

    pub open spec fn contains_host(self, h: Seq<char>) -> bool {
        find_key(self.entries, h) is Some
    }

    /// Room for one more allocation without exhausting the 16-bit counter.
    pub open spec fn can_alloc(self) -> bool {
        self.entries.len() < 0xFFFE
    }

    /// The registry after resolving hostname `h` (unchanged if present).
    pub open spec fn after_host(self, h: Seq<char>) -> DnsView {
        if self.contains_host(h) {
            self
        } else {
            DnsView { next: self.next + 1, entries: self.entries.push((h, self.next as u16)) }
        }
    }

    /// The address that resolving hostname `h` yields.
    pub open spec fn host_addr(self, h: Seq<char>) -> IpAddr {
        match find_key(self.entries, h) {
            Some(id) => spec_sim_addr(id),
            None => spec_sim_addr(self.next as u16),
        }
    }
}

/// The hostname registry of one simulation: allocates a fresh simulated
/// address the first time a hostname is referenced, deterministically in
/// order of first use, and supports exact and pattern-based lookup.
pub struct Dns {
    next: u16,
    names: IndexMap<String, u16>,
}

impl View for Dns {
    type V = DnsView;

    closed spec fn view(&self) -> DnsView {
        DnsView { next: self.next as int, entries: map_entries(self.names) }
    }
}

/// Resolving a hostname keeps the registry well formed, registers the
/// hostname, and later resolutions of it yield the same address.
pub proof fn lemma_after_host_wf(d: DnsView, h: Seq<char>)
    requires
        d.wf(),
        !d.contains_host(h) ==> d.can_alloc(),
    ensures
        d.after_host(h).wf(),
        d.after_host(h).contains_host(h),
        d.after_host(h).host_addr(h) == d.host_addr(h),
        d.after_host(h).entries.len() >= d.entries.len(),
{
    let d1 = d.after_host(h);
    if d.contains_host(h) {
    } else {
        let p = (h, d.next as u16);
        lemma_find_key(d.entries, h);
        lemma_find_key_push(d.entries, p, h);
        assert forall|i: int, j: int| 0 <= i < j < d1.entries.len() implies (
        #[trigger] d1.entries[i]).0 != (#[trigger] d1.entries[j]).0 by {
            if j == d.entries.len() {
                assert(d.entries[i].0 != h);
            }
        }
        assert forall|i: int| 0 <= i < d1.entries.len() implies (#[trigger] d1.entries[i]).1 == i
            + 1 by {
            if i < d.entries.len() {
                assert(d.entries[i].1 == i + 1);
            }
        }
    }
}

impl Dns {
    pub open spec fn wf(&self) -> bool {
        self@.wf()
    }

    /// Creates an empty registry. The first address it will hand out is
    /// 192.168.0.1.
    pub fn new() -> (r: Dns)
        ensures
            r.wf(),
            r@.entries.len() == 0,
            r@.next == 1,
    {
        Dns { next: 1, names: im_new() }
    }

    /// Resolves hostname `name`, allocating a fresh simulated address on
    /// its first reference.
    pub fn resolve_host(&mut self, name: &str) -> (r: IpAddr)
        requires
            old(self).wf(),
            !old(self)@.contains_host(name@) ==> old(self)@.can_alloc(),
        ensures
            final(self).wf(),
            final(self)@ == old(self)@.after_host(name@),
            r == old(self)@.host_addr(name@),
    {
        proof {
            lemma_after_host_wf(old(self)@, name@);
        }
        match im_get(&self.names, name) {
            Some(id) => sim_addr(id),
            None => {
                let id = self.next;
                self.next = self.next + 1;
                im_insert(&mut self.names, name, id);
                sim_addr(id)
            },
        }
    }

    /// Resolves any single-address input; the registry is mutated only on
    /// the first reference to a new hostname.
    pub fn lookup<A: ToIpAddr>(&mut self, addr: A) -> (r: IpAddr)
        requires
            old(self).wf(),
            addr.resolvable(old(self)@),
        ensures
            final(self).wf(),
            r == addr.ip_spec(old(self)@),
            final(self)@ == addr.dns_after(old(self)@),
    {
        addr.to_ip_addr(self)
    }

    /// Resolves a multi-address input; single-address inputs degenerate to
    /// a one-element result.
    pub fn lookup_many<A: ToIpAddrs>(&mut self, addrs: A) -> (r: Vec<IpAddr>)
        requires
            old(self).wf(),
            addrs.resolvable_many(old(self)@),
        ensures
            final(self).wf(),
            r@ == addrs.ips_spec(old(self)@),
            final(self)@ == addrs.dns_after_many(old(self)@),
    {
        addrs.to_ip_addrs(self)
    }

    /// The first-registered hostname whose allocated address is `addr`.
    /// The address must have been allocated by this registry.
    pub fn reverse(&self, addr: IpAddr) -> (r: String)
        requires
            self.wf(),
            find_addr(self@.entries, addr) is Some,
        ensures
            Some(r@) == find_addr(self@.entries, addr),
    {
        let ghost es = self@.entries;
        let entries = im_entries_vec(&self.names);
        let mut i: usize = 0;
        proof {
            lemma_find_addr(es, addr);
        }
        while i < entries.len()
            invariant
                es == self@.entries,
                entries@.len() == es.len(),
                forall|k: int|
                    0 <= k < es.len() ==> (#[trigger] entries@[k]).0@ == es[k].0 && entries@[k].1
                        == es[k].1,
                0 <= i <= es.len(),
                forall|k: int| 0 <= k < i ==> spec_sim_addr((#[trigger] es[k]).1) != addr,
                find_addr(es, addr) is Some,
            decreases entries@.len() - i,
        {
            let a = sim_addr(entries[i].1);
            if a == addr {
                proof {
                    lemma_find_addr(es, addr);
                }
                return entries[i].0.clone();
            }
            i += 1;
        }
        proof {
            lemma_find_addr(es, addr);
        }
        unreached()
    }
}

// ---------------------------------------------------------------------------
// Capability traits: inputs that resolve to addresses
// ---------------------------------------------------------------------------

/// Marker bound for the closed set of resolvable input shapes; no input
/// shape outside this crate can bypass the registry's semantics.
pub trait Sealed {

}

/// Inputs that resolve to a single IP address against the registry.
pub trait ToIpAddr: Sealed {
    /// Whether resolution can run against registry state `d`.
    spec fn resolvable(&self, d: DnsView) -> bool;

    /// The address resolution yields.
    spec fn ip_spec(&self, d: DnsView) -> IpAddr;

    /// The registry state after resolution.
    spec fn dns_after(&self, d: DnsView) -> DnsView;

    fn to_ip_addr(&self, dns: &mut Dns) -> (r: IpAddr)
        requires
            old(dns).wf(),
            self.resolvable(old(dns)@),
        ensures
            final(dns).wf(),
            r == self.ip_spec(old(dns)@),
            final(dns)@ == self.dns_after(old(dns)@),
    ;
}

/// Inputs that resolve to one or more IP addresses against the registry.
pub trait ToIpAddrs: Sealed {
    spec fn resolvable_many(&self, d: DnsView) -> bool;

    spec fn ips_spec(&self, d: DnsView) -> Seq<IpAddr>;

    spec fn dns_after_many(&self, d: DnsView) -> DnsView;

    fn to_ip_addrs(&self, dns: &mut Dns) -> (r: Vec<IpAddr>)
        requires
            old(dns).wf(),
            self.resolvable_many(old(dns)@),
        ensures
            final(dns).wf(),
            r@ == self.ips_spec(old(dns)@),
            final(dns)@ == self.dns_after_many(old(dns)@),
    ;
}

/// Inputs that resolve to a socket address. Resolution only reads the
/// registry; a hostname that is neither a literal nor registered is a
/// resolution fault and is excluded by the contract.
pub trait ToSocketAddrs: Sealed {
    /// Whether the input resolves against registry state `d`.
    spec fn sock_resolvable(&self, d: DnsView) -> bool;

    /// The socket address resolution yields.
    spec fn sock_spec(&self, d: DnsView) -> SocketAddr;

    fn to_socket_addr(&self, dns: &Dns) -> (r: SocketAddr)
        requires
            dns.wf(),
            self.sock_resolvable(dns@),
        ensures
            r == self.sock_spec(dns@),
    ;
}

impl Sealed for IpAddr {

}

impl ToIpAddr for IpAddr {
    open spec fn resolvable(&self, d: DnsView) -> bool {
        true
    }

    open spec fn ip_spec(&self, d: DnsView) -> IpAddr {
        *self
    }

    open spec fn dns_after(&self, d: DnsView) -> DnsView {
        d
    }

    /// A literal address resolves to itself and never mutates the registry.
    fn to_ip_addr(&self, dns: &mut Dns) -> (r: IpAddr) {
        *self
    }
}

impl Sealed for String {

}

impl ToIpAddr for String {
    open spec fn resolvable(&self, d: DnsView) -> bool {
        !d.contains_host(self@) ==> d.can_alloc()
    }

    open spec fn ip_spec(&self, d: DnsView) -> IpAddr {
        d.host_addr(self@)
    }

    open spec fn dns_after(&self, d: DnsView) -> DnsView {
        d.after_host(self@)
    }

    fn to_ip_addr(&self, dns: &mut Dns) -> (r: IpAddr) {
        dns.resolve_host(self.as_str())
    }
}

impl<'a> Sealed for &'a str {

}

impl<'a> ToIpAddr for &'a str {
    open spec fn resolvable(&self, d: DnsView) -> bool {
        !d.contains_host(self@) ==> d.can_alloc()
    }

    open spec fn ip_spec(&self, d: DnsView) -> IpAddr {
        d.host_addr(self@)
    }

    open spec fn dns_after(&self, d: DnsView) -> DnsView {
        d.after_host(self@)
    }

    fn to_ip_addr(&self, dns: &mut Dns) -> (r: IpAddr) {
        dns.resolve_host(self)
    }
}

/// Every single-address input is also a one-element multi-address input.
impl<T: ToIpAddr> ToIpAddrs for T {
    open spec fn resolvable_many(&self, d: DnsView) -> bool {
        self.resolvable(d)
    }

    open spec fn ips_spec(&self, d: DnsView) -> Seq<IpAddr> {
        seq![self.ip_spec(d)]
    }

    open spec fn dns_after_many(&self, d: DnsView) -> DnsView {
        self.dns_after(d)
    }

    fn to_ip_addrs(&self, dns: &mut Dns) -> (r: Vec<IpAddr>) {
        let ip = self.to_ip_addr(dns);
        let mut v: Vec<IpAddr> = Vec::new();
        v.push(ip);
        proof {
            assert(v@ =~= seq![self.ip_spec(old(dns)@)]);
        }
        v
    }
}


// ---------------------------------------------------------------------------
// Pattern lookup through the regex crate
// ---------------------------------------------------------------------------

#[verifier::external_type_specification]
#[verifier::external_body]
pub struct ExRegex(regex::Regex);

/// Whether the regular expression written `pat` matches `text`; the result
/// of regex::Regex::is_match, a function of the two strings alone.
pub uninterp spec fn regex_match(pat: Seq<char>, text: Seq<char>) -> bool;

/// Whether `pat` is a valid regular expression; the success of
/// regex::Regex::new, a function of the pattern alone.
pub uninterp spec fn regex_valid(pat: Seq<char>) -> bool;

/// A compiled hostname pattern, paired with the text it was compiled from.
/// Its view is that text.
pub struct HostPattern {
    re: regex::Regex,
    src: String,
}

impl View for HostPattern {
    type V = Seq<char>;

    closed spec fn view(&self) -> Seq<char> {
        self.src@
    }
}

impl HostPattern {
    /// Relies on regex::Regex::new: compiling `pat` succeeds exactly when
    /// `pat` is a valid pattern, and the compiled value is paired here with
    /// the text it came from.
    #[verifier::external_body]
    pub fn compile(pat: &str) -> (r: Option<HostPattern>)
        ensures
            r is Some <==> regex_valid(pat@),
            r is Some ==> (r->Some_0)@ == pat@,
    {
        match regex::Regex::new(pat) {
            Ok(re) => Some(HostPattern { re, src: pat.to_owned() }),
            Err(_) => None,
        }
    }

    /// Relies on regex::Regex::is_match: whether the pattern this value was
    /// compiled from matches `text`; a function of pattern and text alone.
    #[verifier::external_body]
    fn matches(&self, text: &str) -> (r: bool)
        ensures
            r == regex_match(self@, text@),
    {
        self.re.is_match(text)
    }
}

/// The addresses of the entries whose hostname matches `pat`, in
/// registration order.
pub open spec fn matching_ips(es: Seq<(Seq<char>, u16)>, pat: Seq<char>) -> Seq<IpAddr>
    decreases es.len(),
{
    if es.len() == 0 {
        Seq::empty()
    } else {
        let rest = matching_ips(es.drop_last(), pat);
        if regex_match(pat, es.last().0) {
            rest.push(spec_sim_addr(es.last().1))
        } else {
            rest
        }
    }
}

impl Sealed for HostPattern {

}

impl ToIpAddrs for HostPattern {
    open spec fn resolvable_many(&self, d: DnsView) -> bool {
        true
    }

    open spec fn ips_spec(&self, d: DnsView) -> Seq<IpAddr> {
        matching_ips(d.entries, self@)
    }

    open spec fn dns_after_many(&self, d: DnsView) -> DnsView {
        d
    }

    /// Pattern lookup reads the registry: every currently registered
    /// hostname the pattern matches is reported, and nothing is allocated.
    fn to_ip_addrs(&self, dns: &mut Dns) -> (r: Vec<IpAddr>) {
        let ghost es = dns@.entries;
        let entries = im_entries_vec(&dns.names);
        let mut out: Vec<IpAddr> = Vec::new();
        let mut i: usize = 0;
        while i < entries.len()
            invariant
                es == dns@.entries,
                entries@.len() == es.len(),
                forall|k: int|
                    0 <= k < es.len() ==> (#[trigger] entries@[k]).0@ == es[k].0 && entries@[k].1
                        == es[k].1,
                0 <= i <= es.len(),
                out@ == matching_ips(es.subrange(0, i as int), self@),
            decreases entries@.len() - i,
        {
            proof {
                assert(es.subrange(0, i as int + 1).drop_last() =~= es.subrange(0, i as int));
                assert(es.subrange(0, i as int + 1).last() == es[i as int]);
            }
            if self.matches(entries[i].0.as_str()) {
                out.push(sim_addr(entries[i].1));
            }
            i += 1;
        }
        proof {
            assert(es.subrange(0, es.len() as int) =~= es);
        }
        out
    }
}

// ---------------------------------------------------------------------------
// Socket-address resolution
// ---------------------------------------------------------------------------

/// Whether `host:port` text `s` resolves against registry state `d`: it
/// must split at its last colon into valid port text and a host that is
/// either an IP literal or a registered hostname.
pub open spec fn sock_text_resolvable(d: DnsView, s: Seq<char>) -> bool {
    &&& spec_split_host_port(s) is Some
    &&& {
        let h = spec_split_host_port(s)->Some_0.0;
        spec_host_literal(h) is Some || d.contains_host(h)
    }
}

/// The socket address that `host:port` text `s` resolves to.
pub open spec fn sock_text_spec(d: DnsView, s: Seq<char>) -> SocketAddr {
    let hp = spec_split_host_port(s)->Some_0;
    let ip = if spec_host_literal(hp.0) is Some {
        spec_host_literal(hp.0)->Some_0
    } else {
        d.host_addr(hp.0)
    };
    SocketAddr { ip, port: hp.1 }
}

/// Resolves `host:port` text against the registry without mutating it.
fn resolve_sock_text(dns: &Dns, s: &str) -> (r: SocketAddr)
    requires
        dns.wf(),
        sock_text_resolvable(dns@, s@),
    ensures
        r == sock_text_spec(dns@, s@),
{
    match split_host_port_str(s) {
        Some(hp) => {
            let (host, port) = hp;
            match host_literal_str(host.as_str()) {
                Some(ip) => SocketAddr { ip, port },
                None => {
                    match im_get(&dns.names, host.as_str()) {
                        Some(id) => SocketAddr { ip: sim_addr(id), port },
                        None => unreached(),
                    }
                },
            }
        },
        None => unreached(),
    }
}

impl Sealed for SocketAddr {

}

impl ToSocketAddrs for SocketAddr {
    open spec fn sock_resolvable(&self, d: DnsView) -> bool {
        true
    }

    open spec fn sock_spec(&self, d: DnsView) -> SocketAddr {
        *self
    }

    /// A literal socket address resolves to itself; the registry is not
    /// consulted.
    fn to_socket_addr(&self, dns: &Dns) -> (r: SocketAddr) {
        *self
    }
}

impl Sealed for (IpAddr, u16) {

}

impl ToSocketAddrs for (IpAddr, u16) {
    open spec fn sock_resolvable(&self, d: DnsView) -> bool {
        true
    }

    open spec fn sock_spec(&self, d: DnsView) -> SocketAddr {
        SocketAddr { ip: self.0, port: self.1 }
    }

    /// A literal address and port resolve to themselves.
    fn to_socket_addr(&self, dns: &Dns) -> (r: SocketAddr) {
        SocketAddr { ip: self.0, port: self.1 }
    }
}

/// The socket address a (hostname, port) pair resolves to: the host text
/// may be a bare IP literal, else it must already be registered.
pub open spec fn host_port_spec(d: DnsView, h: Seq<char>, port: u16) -> SocketAddr {
    if spec_parse_ip(h) is Some {
        SocketAddr { ip: spec_parse_ip(h)->Some_0, port }
    } else {
        SocketAddr { ip: d.host_addr(h), port }
    }
}

pub open spec fn host_port_resolvable(d: DnsView, h: Seq<char>) -> bool {
    spec_parse_ip(h) is Some || d.contains_host(h)
}

/// Resolves a (hostname, port) pair against the registry.
fn resolve_host_port(dns: &Dns, host: &str, port: u16) -> (r: SocketAddr)
    requires
        dns.wf(),
        host_port_resolvable(dns@, host@),
    ensures
        r == host_port_spec(dns@, host@, port),
{
    match parse_ip_str(host) {
        Some(ip) => SocketAddr { ip, port },
        None => {
            match im_get(&dns.names, host) {
                Some(id) => SocketAddr { ip: sim_addr(id), port },
                None => unreached(),
            }
        },
    }
}

impl<'a> Sealed for (&'a str, u16) {

}

impl<'a> ToSocketAddrs for (&'a str, u16) {
    open spec fn sock_resolvable(&self, d: DnsView) -> bool {
        host_port_resolvable(d, self.0@)
    }

    open spec fn sock_spec(&self, d: DnsView) -> SocketAddr {
        host_port_spec(d, self.0@, self.1)
    }

    fn to_socket_addr(&self, dns: &Dns) -> (r: SocketAddr) {
        resolve_host_port(dns, self.0, self.1)
    }
}

impl Sealed for (String, u16) {

}

impl ToSocketAddrs for (String, u16) {
    open spec fn sock_resolvable(&self, d: DnsView) -> bool {
        host_port_resolvable(d, self.0@)
    }

    open spec fn sock_spec(&self, d: DnsView) -> SocketAddr {
        host_port_spec(d, self.0@, self.1)
    }

    fn to_socket_addr(&self, dns: &Dns) -> (r: SocketAddr) {
        resolve_host_port(dns, self.0.as_str(), self.1)
    }
}

impl<'a> Sealed for &'a String {

}

impl<'a> ToSocketAddrs for &'a String {
    open spec fn sock_resolvable(&self, d: DnsView) -> bool {
        sock_text_resolvable(d, self@)
    }

    open spec fn sock_spec(&self, d: DnsView) -> SocketAddr {
        sock_text_spec(d, self@)
    }

    fn to_socket_addr(&self, dns: &Dns) -> (r: SocketAddr) {
        resolve_sock_text(dns, self.as_str())
    }
}

impl ToSocketAddrs for String {
    open spec fn sock_resolvable(&self, d: DnsView) -> bool {
        sock_text_resolvable(d, self@)
    }

    open spec fn sock_spec(&self, d: DnsView) -> SocketAddr {
        sock_text_spec(d, self@)
    }

    fn to_socket_addr(&self, dns: &Dns) -> (r: SocketAddr) {
        resolve_sock_text(dns, self.as_str())
    }
}

impl<'a> ToSocketAddrs for &'a str {
    open spec fn sock_resolvable(&self, d: DnsView) -> bool {
        sock_text_resolvable(d, self@)
    }

    open spec fn sock_spec(&self, d: DnsView) -> SocketAddr {
        sock_text_spec(d, self@)
    }

    fn to_socket_addr(&self, dns: &Dns) -> (r: SocketAddr) {
        resolve_sock_text(dns, self)
    }
}



// ---------------------------------------------------------------------------
// Laws of the registry
// ---------------------------------------------------------------------------

/// A registered hostname's stored counter value locates its entry: it is
/// one past the entry's position.
proof fn lemma_find_key_id(d: DnsView, h: Seq<char>)
    requires
        d.wf(),
        d.contains_host(h),
    ensures
        ({
            let id = find_key(d.entries, h)->Some_0;
            &&& 1 <= id <= d.entries.len()
            &&& d.entries[id - 1].0 == h
            &&& d.entries[id - 1].1 == id
        }),
{
    lemma_find_key(d.entries, h);
    let i = choose|i: int|
        0 <= i < d.entries.len() && (#[trigger] d.entries[i]).0 == h && d.entries[i].1 == find_key(
            d.entries,
            h,
        )->Some_0 && (forall|j: int| 0 <= j < i ==> (#[trigger] d.entries[j]).0 != h);
    assert(d.entries[i].1 == i + 1);
}

/// Law: distinct hostnames resolved in sequence against the same registry
/// receive distinct simulated addresses, each inside 192.168.0.0/16.
pub proof fn lemma_distinct_hosts(d: DnsView, h1: Seq<char>, h2: Seq<char>)
    requires
        d.wf(),
        h1 != h2,
        d.entries.len() < 0xFFFD,
    ensures
        ({
            let a1 = d.host_addr(h1);
            let d1 = d.after_host(h1);
            let a2 = d1.host_addr(h2);
            &&& a1 != a2
            &&& in_sim_subnet(a1)
            &&& in_sim_subnet(a2)
        }),
{
    let a1 = d.host_addr(h1);
    let d1 = d.after_host(h1);
    let a2 = d1.host_addr(h2);
    lemma_after_host_wf(d, h1);
    let id1: u16 = if d.contains_host(h1) {
        find_key(d.entries, h1)->Some_0
    } else {
        d.next as u16
    };
    let id2: u16 = if d1.contains_host(h2) {
        find_key(d1.entries, h2)->Some_0
    } else {
        d1.next as u16
    };
    assert(a1 == spec_sim_addr(id1));
    assert(a2 == spec_sim_addr(id2));
    if d.contains_host(h1) {
        lemma_find_key_id(d, h1);
        if d1.contains_host(h2) {
            lemma_find_key_id(d1, h2);
            assert(d1 == d);
            assert(d.entries[id1 - 1].0 == h1);
            assert(d.entries[id2 - 1].0 == h2);
            assert(id1 != id2);
        } else {
            assert(id2 == d.entries.len() + 1);
            assert(id1 != id2);
        }
    } else {
        assert(id1 == d.entries.len() + 1);
        if d1.contains_host(h2) {
            lemma_find_key_id(d1, h2);
            let i2 = id2 - 1;
            assert(d1.entries[i2].0 == h2);
            if id2 == id1 {
                assert(d1.entries[i2].0 == h1);
            }
            assert(id1 != id2);
        } else {
            assert(id2 == d1.entries.len() + 1);
            assert(d1.entries.len() == d.entries.len() + 1);
            assert(id1 != id2);
        }
    }
    lemma_sim_addr_injective(id1, id2);
}

/// Law: resolving the same hostname twice in one registry yields the same
/// address both times, and the second resolution changes nothing.
pub proof fn lemma_lookup_idempotent(d: DnsView, h: Seq<char>)
    requires
        d.wf(),
        !d.contains_host(h) ==> d.can_alloc(),
    ensures
        ({
            let d1 = d.after_host(h);
            &&& d1.host_addr(h) == d.host_addr(h)
            &&& d1.after_host(h) == d1
        }),
{
    lemma_after_host_wf(d, h);
}

/// Law: reverse lookup of the address that resolving hostname `h` yielded
/// returns `h` itself.
pub proof fn lemma_reverse_of_lookup(d: DnsView, h: Seq<char>)
    requires
        d.wf(),
        !d.contains_host(h) ==> d.can_alloc(),
    ensures
        find_addr(d.after_host(h).entries, d.host_addr(h)) == Some(h),
{
    let d1 = d.after_host(h);
    lemma_after_host_wf(d, h);
    let a = d.host_addr(h);
    lemma_find_key_id(d1, h);
    let id = find_key(d1.entries, h)->Some_0;
    assert(d1.host_addr(h) == spec_sim_addr(id));
    assert(a == spec_sim_addr(id));
    lemma_find_addr(d1.entries, a);
    assert(spec_sim_addr(d1.entries[id - 1].1) == a);
    assert(find_addr(d1.entries, a) is Some);
    let i = choose|i: int|
        0 <= i < d1.entries.len() && spec_sim_addr((#[trigger] d1.entries[i]).1) == a
            && d1.entries[i].0 == find_addr(d1.entries, a)->Some_0 && (forall|j: int|
            0 <= j < i ==> spec_sim_addr((#[trigger] d1.entries[j]).1) != a);
    if d1.entries[i].1 != id {
        lemma_sim_addr_injective(d1.entries[i].1, id);
    }
    assert(d1.entries[i].1 == id);
    assert(d1.entries[i].1 == i + 1);
    assert(i == id - 1);
    assert(find_addr(d1.entries, a)->Some_0 == h);
}

/// Law: `host:port` text resolves by splitting at the last colon; the port
/// comes from the digits after it, and the host before it resolves exactly
/// as a separately resolved host does — an IP literal stands for itself, a
/// registered hostname for its registered address.
pub proof fn lemma_host_port_text(d: DnsView, h: Seq<char>, ptext: Seq<char>)
    requires
        d.wf(),
        forall|k: int| 0 <= k < h.len() ==> h[k] != ':',
        spec_parse_port(ptext) is Some,
    ensures
        ({
            let s = h + seq![':'] + ptext;
            let p = spec_parse_port(ptext)->Some_0;
            &&& spec_split_host_port(s) == Some((h, p))
            &&& sock_text_resolvable(d, s) == (spec_host_literal(h) is Some || d.contains_host(h))
            &&& sock_text_resolvable(d, s) ==> sock_text_spec(d, s) == (SocketAddr {
                ip: if spec_host_literal(h) is Some {
                    spec_host_literal(h)->Some_0
                } else {
                    d.host_addr(h)
                },
                port: p,
            })
        }),
{
    let s = h + seq![':'] + ptext;
    assert(s.len() == h.len() + 1 + ptext.len());
    assert(s[h.len() as int] == ':');
    assert forall|k: int| h.len() < k < s.len() implies s[k] != ':' by {
        assert(s[k] == ptext[k - h.len() - 1]);
        assert(crate::parse::is_dec_digit(ptext[k - h.len() - 1]));
    }
    lemma_last_idx_unique(s, ':', h.len() as int);
    assert(s.subrange(0, h.len() as int) =~= h);
    assert(s.subrange(h.len() as int + 1, s.len() as int) =~= ptext);
}


} // verus!

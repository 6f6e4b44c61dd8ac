use netsim::BindError;
use netsim::IpAddr;
use netsim::SocketAddr;
use netsim::UdpSocket;
use netsim::World;

#[test]
fn bind_unspecified_and_reject_foreign_concrete() {
    let mut world = World::new();
    world.set_host("h1");
    let any = SocketAddr::new(IpAddr::V4(0, 0, 0, 0), 8080);
    let sock = UdpSocket::bind(&mut world, any);
    assert!(sock.is_ok());
    // A concrete routable address that is not this host's own address.
    let foreign = SocketAddr::new(IpAddr::V4(192, 168, 0, 99), 8080);
    assert_eq!(
        UdpSocket::bind(&mut world, foreign).err(),
        Some(BindError::Unsupported)
    );
    // The same local address a second time is in use.
    assert_eq!(UdpSocket::bind(&mut world, any).err(), Some(BindError::InUse));
}

#[test]
fn bind_loopback_and_own_address() {
    let mut world = World::new();
    let a = world.set_host("h1");
    let lo = SocketAddr::new(IpAddr::V4(127, 0, 0, 1), 9000);
    assert!(UdpSocket::bind(&mut world, lo).is_ok());
    let own = SocketAddr::new(a, 9000);
    assert!(UdpSocket::bind(&mut world, own).is_ok());
}

#[test]
fn send_reports_full_length_and_recv_truncates() {
    let mut world = World::new();
    let a = world.set_host("h1");
    let tx = UdpSocket::bind(&mut world, SocketAddr::new(a, 4000)).unwrap();
    let b = world.set_host("h2");
    let rx = UdpSocket::bind(&mut world, SocketAddr::new(b, 5000)).unwrap();

    let n = tx.send_to(&mut world, &b"abcdef"[..], SocketAddr::new(b, 5000));
    assert_eq!(n, 6);

    let mut small = vec![0u8; 4];
    let (got, origin) = rx.recv_from(&mut world, &mut small).unwrap();
    assert_eq!(got, 4);
    assert_eq!(origin, SocketAddr::new(a, 4000));
    assert_eq!(small, b"abcd".to_vec());
}

#[test]
fn recv_on_empty_queue_returns_none() {
    let mut world = World::new();
    let a = world.set_host("h1");
    let rx = UdpSocket::bind(&mut world, SocketAddr::new(a, 5000)).unwrap();
    let mut buf = vec![0u8; 4];
    assert!(rx.recv_from(&mut world, &mut buf).is_none());
    assert_eq!(buf, vec![0u8; 4]);
}

#[test]
fn unspecified_sender_uses_host_address() {
    let mut world = World::new();
    let a = world.set_host("h1");
    let tx = UdpSocket::bind(&mut world, SocketAddr::new(IpAddr::V4(0, 0, 0, 0), 4000)).unwrap();
    let b = world.set_host("h2");
    let rx = UdpSocket::bind(&mut world, SocketAddr::new(b, 5000)).unwrap();

    // h1 is the sender's host: switch the active host back before sending.
    world.set_host("h1");
    tx.send_to(&mut world, &b"hi"[..], SocketAddr::new(b, 5000));
    let mut buf = vec![0u8; 8];
    let (got, origin) = rx.recv_from(&mut world, &mut buf).unwrap();
    assert_eq!(got, 2);
    assert_eq!(origin, SocketAddr::new(a, 4000));
}

#[test]
fn delivery_to_unspecified_binding_by_host_address() {
    let mut world = World::new();
    let a = world.set_host("h1");
    let tx = UdpSocket::bind(&mut world, SocketAddr::new(a, 4000)).unwrap();
    let b = world.set_host("h2");
    let rx = UdpSocket::bind(&mut world, SocketAddr::new(IpAddr::V4(0, 0, 0, 0), 5000)).unwrap();

    tx.send_to(&mut world, &b"zz"[..], SocketAddr::new(b, 5000));
    let mut buf = vec![0u8; 8];
    let (got, _) = rx.recv_from(&mut world, &mut buf).unwrap();
    assert_eq!(got, 2);
    assert_eq!(&buf[..2], b"zz");
}

#[test]
fn envelopes_arrive_in_order() {
    let mut world = World::new();
    let a = world.set_host("h1");
    let tx = UdpSocket::bind(&mut world, SocketAddr::new(a, 4000)).unwrap();
    let b = world.set_host("h2");
    let rx = UdpSocket::bind(&mut world, SocketAddr::new(b, 5000)).unwrap();

    tx.send_to(&mut world, &b"one"[..], SocketAddr::new(b, 5000));
    tx.send_to(&mut world, &b"two"[..], SocketAddr::new(b, 5000));
    let mut buf = vec![0u8; 8];
    let (n1, _) = rx.recv_from(&mut world, &mut buf).unwrap();
    assert_eq!(&buf[..n1], b"one");
    let (n2, _) = rx.recv_from(&mut world, &mut buf).unwrap();
    assert_eq!(&buf[..n2], b"two");
}

#[test]
fn release_frees_the_address_for_rebinding() {
    let mut world = World::new();
    let a = world.set_host("h1");
    let local = SocketAddr::new(a, 4000);
    let sock = UdpSocket::bind(&mut world, local).unwrap();
    assert_eq!(UdpSocket::bind(&mut world, local).err(), Some(BindError::InUse));
    sock.release(&mut world);
    assert!(UdpSocket::bind(&mut world, local).is_ok());
}

#[test]
fn end_to_end_hostname_scenario() {
    let mut world = World::new();
    let a = world.set_host("foo");
    assert_eq!(a, IpAddr::V4(192, 168, 0, 1));
    assert_eq!(
        world.sock_addr_of(&"foo:5000"),
        SocketAddr::new(a, 5000)
    );
    let tx = UdpSocket::bind(&mut world, "foo:4000").unwrap();
    let b = world.set_host("bar");
    let rx = UdpSocket::bind(&mut world, SocketAddr::new(b, 5000)).unwrap();

    let sent = tx.send_to(&mut world, &b"ping"[..], SocketAddr::new(b, 5000));
    assert_eq!(sent, 4);
    let mut buf = vec![0u8; 16];
    let (got, origin) = rx.recv_from(&mut world, &mut buf).unwrap();
    assert_eq!(got, 4);
    assert_eq!(origin, SocketAddr::new(a, 4000));
    assert_eq!(&buf[..4], b"ping");
    assert_eq!(world.reverse(a), "foo".to_owned());
}

#[test]
fn dropped_datagram_when_nothing_bound() {
    let mut world = World::new();
    let a = world.set_host("h1");
    let tx = UdpSocket::bind(&mut world, SocketAddr::new(a, 4000)).unwrap();
    // No endpoint is bound at the destination: the send still reports the
    // full length and the world is otherwise unchanged.
    let n = tx.send_to(&mut world, &b"lost"[..], SocketAddr::new(IpAddr::V4(192, 168, 0, 9), 1));
    assert_eq!(n, 4);
}

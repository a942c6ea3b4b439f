//! The datapath against a smoltcp host and against a WireGuard peer.
use boringtun::noise::{Tunn, TunnResult};
use corplink_tunnel::conf::TunnelParams;
use corplink_tunnel::conn::{FromApp, Pumped, CHUNK};
use corplink_tunnel::device::{RxTok, TxTok, VirtDevice};
use corplink_tunnel::dns::build_dns_query;
use corplink_tunnel::ipv4::Ipv4;
use corplink_tunnel::noise::{on_look, settle, spent, Outcome, MAX_QUEUE};
use corplink_tunnel::stack::{ConnectFault, UdpSendFault};
use corplink_tunnel::tunnel::{configure, Datapath};
use smoltcp::iface::{Config, Interface, SocketHandle, SocketSet};
use smoltcp::phy::{Device, DeviceCapabilities, Medium, RxToken, TxToken};
use smoltcp::socket::{tcp, udp};
use smoltcp::time::Instant;
use smoltcp::wire::{HardwareAddress, IpAddress, IpCidr};
use std::collections::VecDeque;
use x25519_dalek::{PublicKey, StaticSecret};

struct Wire<'a>(&'a mut VirtDevice);
struct Rx(RxTok);
struct Tx<'a>(TxTok<'a>);

impl RxToken for Rx {
    fn consume<R, F: FnOnce(&[u8]) -> R>(self, f: F) -> R {
        self.0.consume(f)
    }
}

impl<'a> TxToken for Tx<'a> {
    fn consume<R, F: FnOnce(&mut [u8]) -> R>(self, len: usize, f: F) -> R {
        self.0.consume(len, f)
    }
}

impl<'d> Device for Wire<'d> {
    type RxToken<'a> = Rx where Self: 'a;
    type TxToken<'a> = Tx<'a> where Self: 'a;

    fn receive(&mut self, _now: Instant) -> Option<(Rx, Tx<'_>)> {
        self.0.receive().map(|(rx, tx)| (Rx(rx), Tx(tx)))
    }

    fn transmit(&mut self, _now: Instant) -> Option<Tx<'_>> {
        self.0.transmit().map(Tx)
    }

    fn capabilities(&self) -> DeviceCapabilities {
        let mut c = DeviceCapabilities::default();
        c.medium = Medium::Ip;
        c.max_transmission_unit = self.0.mtu;
        c
    }
}

const SERVER: Ipv4 = Ipv4 { a: 10, b: 0, c: 0, d: 9 };

fn public(secret: [u8; 32]) -> [u8; 32] {
    PublicKey::from(&StaticSecret::from(secret)).to_bytes()
}

fn params(dns: Ipv4) -> TunnelParams {
    TunnelParams {
        private_key: [1; 32],
        peer_key: public([2; 32]),
        ip: Ipv4::new(10, 0, 0, 2),
        prefix: 24,
        gateway: Ipv4::new(10, 0, 0, 1),
        dns,
        mtu: 1400,
    }
}

fn new_iface(device: &mut VirtDevice) -> Interface {
    Interface::new(Config::new(HardwareAddress::Ip), &mut Wire(device), Instant::from_millis(0))
}

/// A client behind the datapath and a plain host, with a wire between their devices.
struct World {
    now: i64,
    path: Datapath<u32, u8>,
    iface: Interface,
    host: VirtDevice,
    host_iface: Interface,
    host_sockets: SocketSet<'static>,
    web: SocketHandle,
    dns: SocketHandle,
}

impl World {
    fn new(dns: Ipv4) -> World {
        let p = params(dns);
        let mut net_out = Vec::new();
        let mut path = Datapath::new(&p, &mut net_out);
        let mut iface = new_iface(&mut path.device);
        configure(&mut iface, &p);
        let mut host = VirtDevice::new(1400);
        let mut host_iface = new_iface(&mut host);
        host_iface.update_ip_addrs(|addrs| {
            addrs.push(IpCidr::new(IpAddress::v4(10, 0, 0, 9), 24)).unwrap();
        });
        let mut host_sockets = SocketSet::new(Vec::new());
        let mut web = tcp::Socket::new(
            tcp::SocketBuffer::new(vec![0; 65535]),
            tcp::SocketBuffer::new(vec![0; 200_000]),
        );
        web.listen(80).unwrap();
        let web = host_sockets.add(web);
        let buffer = || udp::PacketBuffer::new(vec![udp::PacketMetadata::EMPTY; 16], vec![0; 16384]);
        let mut dns = udp::Socket::new(buffer(), buffer());
        dns.bind(53).unwrap();
        let dns = host_sockets.add(dns);
        World { now: 0, path, iface, host, host_iface, host_sockets, web, dns }
    }

    /// Runs both stacks for a while of the given length, in milliseconds.
    fn run(&mut self, millis: i64) {
        let end = self.now + millis;
        while self.now < end {
            self.now += 1;
            let t = Instant::from_millis(self.now);
            self.iface.poll(t, &mut Wire(&mut self.path.device), &mut self.path.sockets);
            self.host.rx.append(&mut self.path.device.tx);
            self.host_iface.poll(t, &mut Wire(&mut self.host), &mut self.host_sockets);
            self.path.device.rx.append(&mut self.host.tx);
        }
    }

    fn web(&mut self) -> &mut tcp::Socket<'static> {
        let handle = self.web;
        self.host_sockets.get_mut::<tcp::Socket>(handle)
    }

    fn dns(&mut self) -> &mut udp::Socket<'static> {
        let handle = self.dns;
        self.host_sockets.get_mut::<udp::Socket>(handle)
    }

    fn pump(&mut self, pieces: Vec<Vec<u8>>, closed: bool) -> Pumped {
        self.pump_into(pieces, closed, 256)
    }

    /// A turn with an application that has room for some pieces.
    fn pump_into(&mut self, pieces: Vec<Vec<u8>>, closed: bool, room: usize) -> Pumped {
        let mut inputs = VecDeque::new();
        inputs.push_back(FromApp { pieces: pieces.into_iter().collect(), closed, room });
        let mut out = self.path.pump(inputs);
        assert_eq!(out.len(), 1);
        out.remove(0)
    }

    fn connected(&mut self) {
        assert!(self.path.connect(&mut self.iface, SERVER, 80, 7).is_ok());
        assert_eq!(self.path.take_connected(), vec![None]);
        self.run(5);
        assert_eq!(self.path.take_connected(), vec![Some(7)]);
        assert_eq!(self.path.take_connected(), vec![None]);
    }
}

#[test]
fn interface_gets_address_and_route() {
    let mut device = VirtDevice::new(1400);
    let mut iface = new_iface(&mut device);
    configure(&mut iface, &params(SERVER));
    assert_eq!(iface.ip_addrs(), &[IpCidr::new(IpAddress::v4(10, 0, 0, 2), 24)]);
    let mut routes = Vec::new();
    iface.routes_mut().update(|r| routes.extend(r.iter().map(|x| (x.cidr, x.via_router))));
    assert_eq!(routes, vec![(IpCidr::new(IpAddress::v4(0, 0, 0, 0), 0), IpAddress::v4(10, 0, 0, 1))]);
    // A second configuration takes a second address and replaces the route.
    let other = TunnelParams { ip: Ipv4::new(10, 0, 0, 3), gateway: Ipv4::new(10, 0, 0, 254), ..params(SERVER) };
    configure(&mut iface, &other);
    assert_eq!(iface.ip_addrs().len(), 2);
    let mut routes = Vec::new();
    iface.routes_mut().update(|r| routes.extend(r.iter().map(|x| x.via_router)));
    assert_eq!(routes, vec![IpAddress::v4(10, 0, 0, 254)]);
    // A third address finds no place.
    configure(&mut iface, &params(SERVER));
    assert_eq!(iface.ip_addrs().len(), 2);
}

#[test]
fn connection_carries_bytes_both_ways() {
    let mut w = World::new(SERVER);
    w.connected();
    assert_eq!(w.web().remote_endpoint().map(|e| e.port), Some(20001));
    let out = w.pump(vec![b"hel".to_vec(), b"lo".to_vec()], false);
    assert!(out.keep);
    assert!(out.to_app.is_empty());
    w.run(5);
    let mut got = vec![0; 100];
    let n = w.web().recv_slice(&mut got).unwrap();
    assert_eq!(&got[..n], b"hello");
    w.web().send_slice(b"world").unwrap();
    w.run(5);
    let out = w.pump(Vec::new(), false);
    assert_eq!(out.to_app, vec![b"world".to_vec()]);
    assert!(w.pump(Vec::new(), false).to_app.is_empty());
}

#[test]
fn connection_closes_after_the_last_byte() {
    let mut w = World::new(SERVER);
    w.connected();
    let out = w.pump(vec![b"bye".to_vec()], true);
    assert!(out.keep);
    assert!(w.path.conns[0].fin_sent);
    w.run(5);
    let mut got = vec![0; 100];
    let n = w.web().recv_slice(&mut got).unwrap();
    assert_eq!(&got[..n], b"bye");
    assert_eq!(w.web().state(), tcp::State::CloseWait);
    w.web().close();
    w.run(5);
    assert!(w.pump(Vec::new(), true).keep);
    w.run(11_000);
    assert!(!w.pump(Vec::new(), true).keep);
    assert!(w.path.conns.is_empty());
    assert!(w.path.pump(VecDeque::new()).is_empty());
}

#[test]
fn more_than_a_buffer_is_sent_in_order() {
    let mut w = World::new(SERVER);
    w.connected();
    let sent: Vec<u8> = (0..300_000u32).map(|i| (i % 251) as u8).collect();
    let pieces: Vec<Vec<u8>> = sent.chunks(70_000).map(|c| c.to_vec()).collect();
    w.pump(pieces, true);
    assert!(!w.path.conns[0].fin_sent);
    assert!(!w.path.conns[0].pending.is_empty());
    let mut got = Vec::new();
    for _ in 0..2000 {
        w.run(1);
        let mut part = vec![0; 100_000];
        if let Ok(n) = w.web().recv_slice(&mut part) {
            got.extend_from_slice(&part[..n]);
        }
        w.pump(Vec::new(), true);
        if w.path.conns[0].fin_sent && got.len() == sent.len() {
            break;
        }
    }
    assert!(got == sent);
    assert!(w.path.conns[0].fin_sent);
}

#[test]
fn received_bytes_come_in_chunks() {
    let mut w = World::new(SERVER);
    w.connected();
    let sent: Vec<u8> = (0..100_000u32).map(|i| (i % 241) as u8).collect();
    assert_eq!(w.web().send_slice(&sent), Ok(100_000));
    w.run(500);
    let out = w.pump(Vec::new(), false);
    let lens: Vec<usize> = out.to_app.iter().map(|p| p.len()).collect();
    assert_eq!(lens, vec![CHUNK, CHUNK, CHUNK, 100_000 - 3 * CHUNK]);
    assert!(out.to_app.concat() == sent);
}

#[test]
fn bytes_without_room_stay_in_the_socket() {
    let mut w = World::new(SERVER);
    w.connected();
    let sent: Vec<u8> = (0..100_000u32).map(|i| (i % 239) as u8).collect();
    assert_eq!(w.web().send_slice(&sent), Ok(100_000));
    w.run(500);
    assert!(w.pump_into(Vec::new(), false, 0).to_app.is_empty());
    let first = w.pump_into(Vec::new(), false, 2);
    let lens: Vec<usize> = first.to_app.iter().map(|p| p.len()).collect();
    assert_eq!(lens, vec![CHUNK, CHUNK]);
    let second = w.pump_into(Vec::new(), false, 9);
    assert_eq!(second.to_app.len(), 2);
    assert!([first.to_app.concat(), second.to_app.concat()].concat() == sent);
}

#[test]
fn closed_socket_is_kept_until_it_is_read() {
    let mut w = World::new(SERVER);
    w.connected();
    w.web().send_slice(b"last words").unwrap();
    w.run(5);
    w.web().abort();
    w.run(5);
    assert!(w.pump_into(Vec::new(), false, 0).keep);
    let out = w.pump_into(Vec::new(), false, 1);
    assert_eq!(out.to_app, vec![b"last words".to_vec()]);
    assert!(!out.keep);
    assert!(w.path.conns.is_empty());
}

#[test]
fn several_connections_keep_apart() {
    let mut w = World::new(SERVER);
    w.connected();
    // Nobody listens any more: the second connection is reset.
    assert!(w.path.connect(&mut w.iface, SERVER, 81, 8).is_ok());
    assert_eq!(w.path.dialer.next_port, 2);
    w.run(5);
    assert_eq!(w.path.take_connected(), vec![None, None]);
    let mut inputs = VecDeque::new();
    inputs.push_back(FromApp { pieces: VecDeque::from(vec![b"one".to_vec()]), closed: false, room: 256 });
    inputs.push_back(FromApp { pieces: VecDeque::from(vec![b"two".to_vec()]), closed: false, room: 256 });
    let out = w.path.pump(inputs);
    assert!(out[0].keep);
    assert!(!out[1].keep);
    assert_eq!(w.path.conns.len(), 1);
    w.run(5);
    let mut got = vec![0; 100];
    let n = w.web().recv_slice(&mut got).unwrap();
    assert_eq!(&got[..n], b"one");
}

#[test]
fn refused_connections_come_back() {
    let mut w = World::new(SERVER);
    assert_eq!(w.path.connect(&mut w.iface, SERVER, 0, 3), Err((3, ConnectFault::Unaddressable)));
    assert_eq!(w.path.connect(&mut w.iface, Ipv4::new(0, 0, 0, 0), 80, 4), Err((4, ConnectFault::Unaddressable)));
    let mut device = VirtDevice::new(1400);
    let mut bare = new_iface(&mut device);
    assert_eq!(w.path.connect(&mut bare, SERVER, 80, 5), Err((5, ConnectFault::Unaddressable)));
    assert_eq!(w.path.dialer.next_port, 3);
    assert!(w.path.conns.is_empty());
    assert_eq!(w.path.sockets.iter().count(), 1);
}

fn dns_reply(query: &[u8], ip: [u8; 4]) -> Vec<u8> {
    let mut m = query.to_vec();
    m[2] = 0x81;
    m[7] = 1;
    m.extend_from_slice(&[0xc0, 12, 0, 1, 0, 1, 0, 0, 0, 60, 0, 4]);
    m.extend_from_slice(&ip);
    m
}

#[test]
fn names_are_resolved_through_the_tunnel() {
    let mut w = World::new(SERVER);
    assert!(w.path.resolve("a.example", 1).is_ok());
    assert!(w.path.resolve("b.example", 2).is_ok());
    assert!(w.path.resolve("c.example", 3).is_ok());
    w.run(3);
    let mut queries = Vec::new();
    let mut client = None;
    while let Ok((data, meta)) = w.dns().recv() {
        queries.push(data.to_vec());
        client = Some(meta.endpoint);
    }
    assert_eq!(client.map(|c| c.port), Some(40000));
    assert_eq!(queries[0], build_dns_query("a.example", 2));
    assert_eq!(queries[1], build_dns_query("b.example", 3));
    assert_eq!(queries[2], build_dns_query("c.example", 4));
    // The second is answered first, the first has no address, and a stranger is passed
    // over.
    let client = client.unwrap();
    w.dns().send_slice(&dns_reply(&queries[1], [10, 9, 8, 7]), client).unwrap();
    w.dns().send_slice(&build_dns_query("x", 999), client).unwrap();
    w.dns().send_slice(&queries[0], client).unwrap();
    w.dns().send_slice(b"short", client).unwrap();
    w.run(10);
    let out = w.path.take_answers();
    assert!(!out.unreadable);
    assert_eq!(out.answers, vec![(2, Some(Ipv4::new(10, 9, 8, 7))), (1, None)]);
    assert_eq!(w.path.resolver.pending, vec![(4, 3)]);
    assert!(w.path.take_answers().answers.is_empty());
}

#[test]
fn unreadable_reply_is_reported() {
    let mut w = World::new(SERVER);
    assert!(w.path.resolve("a.example", 1).is_ok());
    w.run(3);
    let (query, client) = {
        let (data, meta) = w.dns().recv().unwrap();
        (data.to_vec(), meta.endpoint)
    };
    let mut bad = vec![0u8; 24];
    bad[7] = 1;
    bad[12] = 50;
    w.dns().send_slice(&bad, client).unwrap();
    w.dns().send_slice(&dns_reply(&query, [1, 2, 3, 4]), client).unwrap();
    w.run(3);
    let out = w.path.take_answers();
    assert!(out.unreadable);
    assert!(out.answers.is_empty());
    let out = w.path.take_answers();
    assert!(!out.unreadable);
    assert_eq!(out.answers, vec![(1, Some(Ipv4::new(1, 2, 3, 4)))]);
}

#[test]
fn refused_queries_come_back() {
    let mut w = World::new(Ipv4::new(0, 0, 0, 0));
    assert_eq!(w.path.resolve("a", 9), Err((9, UdpSendFault::Unaddressable)));
    let mut w = World::new(SERVER);
    let long = "x".repeat(9000);
    assert_eq!(w.path.resolve(&long, 9), Err((9, UdpSendFault::BufferFull)));
    for i in 0..8 {
        assert!(w.path.resolve("a", i).is_ok());
    }
    assert_eq!(w.path.resolve("a", 8), Err((8, UdpSendFault::BufferFull)));
    assert_eq!(w.path.resolver.last_id, 11);
    assert_eq!(w.path.resolver.pending.len(), 8);
}

#[test]
fn queries_fill_the_ring_piece_by_piece() {
    // A name of n letters makes a query of n + 18 bytes.
    let name = |len: usize| "x".repeat(len - 18);
    let mut w = World::new(SERVER);
    assert!(w.path.resolve(&name(4000), 1).is_ok());
    assert!(w.path.resolve(&name(1000), 2).is_ok());
    assert_eq!(w.path.resolve(&name(3193), 3), Err((3, UdpSendFault::BufferFull)));
    assert!(w.path.resolve(&name(3192), 4).is_ok());
    assert_eq!(w.path.resolve("a", 5), Err((5, UdpSendFault::BufferFull)));
    w.run(5);
    assert!(w.path.resolve(&name(8192), 6).is_ok());
}

#[test]
fn message_with_a_used_up_counter_is_dropped() {
    assert!(!spent(&[4, 0, 0, 0, 0, 0, 0, 0, 255, 251, 255, 255, 255, 255, 255, 255]));
    let mut message = vec![4, 0, 0, 0, 0, 0, 0, 0, 0, 252, 255, 255, 255, 255, 255, 255];
    assert!(spent(&message));
    assert!(!spent(&message[..15]));
    message.resize(64, 7);
    let mut net_out = Vec::new();
    let mut path: Datapath<u32, u8> = Datapath::new(&params(SERVER), &mut net_out);
    let mut out = Vec::new();
    path.receive(&message, &mut out);
    assert!(out.is_empty() && path.device.rx.is_empty());
    message[0] = 1;
    assert!(!spent(&message));
}

#[test]
fn outcomes_are_settled_one_by_one() {
    let mut out = Vec::new();
    assert!(on_look(Outcome::Network(vec![1, 2]), &mut out));
    assert!(!on_look(Outcome::Done, &mut out));
    assert!(!on_look(Outcome::Fault, &mut out));
    assert_eq!(out, vec![vec![1, 2]]);

    let mut net_out = Vec::new();
    let mut path: Datapath<u32, u8> = Datapath::new(&params(SERVER), &mut net_out);
    let mut out = Vec::new();
    settle(Outcome::TunnelV4(ip_packet(5)), &mut path.tunn, &mut path.device, &mut path.buf, &mut out);
    settle(Outcome::TunnelV6(vec![6]), &mut path.tunn, &mut path.device, &mut path.buf, &mut out);
    settle(Outcome::Network(vec![7]), &mut path.tunn, &mut path.device, &mut path.buf, &mut out);
    settle(Outcome::Fault, &mut path.tunn, &mut path.device, &mut path.buf, &mut out);
    assert_eq!(path.device.rx, VecDeque::from(vec![ip_packet(5), vec![6]]));
    assert_eq!(out, vec![vec![7]]);
}

fn ip_packet(n: u8) -> Vec<u8> {
    let mut p = vec![0x45, 0, 0, 24, 0, 0, 0, 0, 64, 17, 0, 0, 10, 0, 0, 2, 10, 0, 0, 9];
    p.extend_from_slice(&[n, n, n, n]);
    p
}

fn peer() -> Tunn {
    Tunn::new(StaticSecret::from([2; 32]), PublicKey::from(public([1; 32])), None, None, 1, None)
}

fn respond(peer: &mut Tunn, message: &[u8]) -> Vec<u8> {
    let mut buf = vec![0; 65535];
    match peer.decapsulate(None, message, &mut buf) {
        TunnResult::WriteToNetwork(m) => m.to_vec(),
        _ => panic!("no response"),
    }
}

fn inside(peer: &mut Tunn, message: &[u8]) -> Option<Vec<u8>> {
    let mut buf = vec![0; 65535];
    match peer.decapsulate(None, message, &mut buf) {
        TunnResult::WriteToTunnelV4(p, _) => Some(p.to_vec()),
        TunnResult::Done => None,
        _ => panic!("refused"),
    }
}

#[test]
fn handshake_and_packets_both_ways() {
    let mut peer = peer();
    let mut net_out = Vec::new();
    let mut path: Datapath<u32, u8> = Datapath::new(&params(SERVER), &mut net_out);
    assert_eq!(net_out.len(), 1);
    assert_eq!(net_out[0].len(), 148);
    assert_eq!(&net_out[0][..4], &[1, 0, 0, 0]);
    let response = respond(&mut peer, &net_out[0]);

    // Packets that the stack sent too early wait for the session.
    let mut out = Vec::new();
    path.device.tx.push_back(ip_packet(1));
    path.device.tx.push_back(ip_packet(2));
    assert!(path.fits());
    path.encrypt(&mut out);
    assert!(out.is_empty());
    assert!(path.device.tx.is_empty());

    path.receive(&response, &mut out);
    let lens: Vec<usize> = out.iter().map(|m| m.len()).collect();
    assert_eq!(lens, vec![32, 32, 56, 56]);
    assert_eq!(inside(&mut peer, &out[0]), None);
    assert_eq!(inside(&mut peer, &out[1]), None);
    assert_eq!(inside(&mut peer, &out[2]), Some(ip_packet(1)));
    assert_eq!(inside(&mut peer, &out[3]), Some(ip_packet(2)));

    let mut out = Vec::new();
    path.device.tx.push_back(ip_packet(3));
    path.encrypt(&mut out);
    assert_eq!(out.len(), 1);
    assert_eq!(&out[0][..4], &[4, 0, 0, 0]);
    assert_eq!(inside(&mut peer, &out[0]), Some(ip_packet(3)));

    let mut buf = vec![0; 65535];
    let message = match peer.encapsulate(&ip_packet(4), &mut buf) {
        TunnResult::WriteToNetwork(m) => m.to_vec(),
        _ => panic!("no message"),
    };
    let mut out = Vec::new();
    path.receive(&message, &mut out);
    assert!(out.is_empty());
    assert_eq!(path.device.rx, VecDeque::from(vec![ip_packet(4)]));
    // The same message is not accepted twice.
    path.receive(&message, &mut out);
    assert!(out.is_empty());
    assert_eq!(path.device.rx.len(), 1);
}

#[test]
fn garbage_changes_nothing() {
    let mut net_out = Vec::new();
    let mut path: Datapath<u32, u8> = Datapath::new(&params(SERVER), &mut net_out);
    for garbage in [vec![9u8; 40], vec![4, 0, 0, 0], vec![1; 148], vec![4; 65535]] {
        let mut out = Vec::new();
        path.receive(&garbage, &mut out);
        assert!(out.is_empty());
        assert!(path.device.rx.is_empty());
    }
}

#[test]
fn queue_without_a_session_is_bounded() {
    let mut peer = peer();
    let mut net_out = Vec::new();
    let mut path: Datapath<u32, u8> = Datapath::new(&params(SERVER), &mut net_out);
    let response = respond(&mut peer, &net_out[0]);
    for i in 0..300u32 {
        path.device.tx.push_back(ip_packet((i % 256) as u8));
    }
    let mut out = Vec::new();
    path.encrypt(&mut out);
    assert!(out.is_empty());
    path.receive(&response, &mut out);
    // The answer to the response, the packet that began the handshake, and as many
    // others as there was room for.
    assert_eq!(out.len(), 1 + MAX_QUEUE);
    assert_eq!(out[1].len(), 32);
    assert_eq!(inside(&mut peer, &out[2]), Some(ip_packet(0)));
}

#[test]
fn initiation_of_the_peer_is_answered() {
    let mut peer = peer();
    let mut net_out = Vec::new();
    let mut path: Datapath<u32, u8> = Datapath::new(&params(SERVER), &mut net_out);
    let mut buf = vec![0; 65535];
    let initiation = match peer.encapsulate(&ip_packet(1), &mut buf) {
        TunnResult::WriteToNetwork(m) => m.to_vec(),
        _ => panic!("no message"),
    };
    let mut out = Vec::new();
    path.receive(&initiation, &mut out);
    // The response ends the handshake under way, and the packet that waits begins
    // another one.
    let lens: Vec<usize> = out.iter().map(|m| m.len()).collect();
    assert_eq!(lens, vec![92, 148]);
    assert_eq!(&out[0][..4], &[2, 0, 0, 0]);
    assert_eq!(&out[1][..4], &[1, 0, 0, 0]);
}

#[test]
fn waiting_packets_survive_a_handshake_of_the_peer() {
    let mut peer = peer();
    let mut net_out = Vec::new();
    let mut path: Datapath<u32, u8> = Datapath::new(&params(SERVER), &mut net_out);
    path.device.tx.push_back(ip_packet(1));
    path.device.tx.push_back(ip_packet(2));
    let mut out = Vec::new();
    path.encrypt(&mut out);
    let mut buf = vec![0; 65535];
    let initiation = match peer.encapsulate(&[], &mut buf) {
        TunnResult::WriteToNetwork(m) => m.to_vec(),
        _ => panic!("no message"),
    };
    path.receive(&initiation, &mut out);
    assert_eq!(out.len(), 2);
    let response = respond(&mut peer, &out[1]);
    let mut out = Vec::new();
    path.receive(&response, &mut out);
    assert_eq!(out.len(), 4);
    let mut got: Vec<Vec<u8>> = out.iter().filter_map(|m| inside(&mut peer, m)).collect();
    got.sort();
    assert_eq!(got, vec![ip_packet(1), ip_packet(2)]);
}

#[test]
fn nothing_is_due_at_first() {
    let mut net_out = Vec::new();
    let mut path: Datapath<u32, u8> = Datapath::new(&params(SERVER), &mut net_out);
    let mut out = Vec::new();
    path.before_poll(&mut out);
    assert!(out.is_empty());
}

#[test]
fn unanswered_handshake_is_begun_again() {
    let mut net_out = Vec::new();
    let mut path: Datapath<u32, u8> = Datapath::new(&params(SERVER), &mut net_out);
    let start = std::time::Instant::now();
    let mut out = Vec::new();
    while out.is_empty() && start.elapsed().as_secs() < 12 {
        path.before_poll(&mut out);
    }
    assert_eq!(out.len(), 1);
    assert_eq!(out[0].len(), 148);
    assert_eq!(&out[0][..4], &[1, 0, 0, 0]);
    assert!(out[0] != net_out[0]);
}

#[test]
fn oversized_packets_do_not_fit() {
    let mut net_out = Vec::new();
    let mut path: Datapath<u32, u8> = Datapath::new(&params(SERVER), &mut net_out);
    path.device.tx.push_back(vec![0x45; 65503]);
    assert!(path.fits());
    path.device.tx.push_back(vec![0x45; 65504]);
    assert!(!path.fits());
}

#[test]
fn device_queues() {
    let mut device = VirtDevice::new(1400);
    assert_eq!(device.mtu, 1400);
    assert!(device.receive().is_none());
    device.rx.push_back(vec![1, 2]);
    device.rx.push_back(vec![3]);
    let (rx, tx) = device.receive().unwrap();
    assert_eq!(rx.consume(|p| p.to_vec()), vec![1, 2]);
    let r = tx.consume(3, |p| {
        assert_eq!(p, &[0, 0, 0]);
        p[1] = 9;
        "filled"
    });
    assert_eq!(r, "filled");
    device.transmit().unwrap().consume(1, |p| p[0] = 7);
    assert_eq!(device.tx, VecDeque::from(vec![vec![0, 9, 0], vec![7]]));
    assert_eq!(device.rx, VecDeque::from(vec![vec![3]]));
}

#[test]
fn local_ports_go_round() {
    let mut dialer = corplink_tunnel::conn::Dialer::new();
    assert_eq!(dialer.next_local_port(), 20001);
    assert_eq!(dialer.next_local_port(), 20002);
    dialer.next_port = 39_998;
    assert_eq!(dialer.next_local_port(), 59_999);
    assert_eq!(dialer.next_local_port(), 20_000);
    let mut fresh = corplink_tunnel::conn::Dialer::new();
    let mut all: Vec<u16> = (0..40_000).map(|_| fresh.next_local_port()).collect();
    all.sort();
    all.dedup();
    assert_eq!(all.len(), 40_000);
    dialer.next_port = 65_535;
    assert_eq!(dialer.next_local_port(), 20_000);
}

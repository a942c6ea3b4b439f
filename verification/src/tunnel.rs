//! The datapath: one turn after the other, it moves bytes between the applications, the
//! TCP/IP stack, the encrypted tunnel and the network.
//!
//! The stack itself runs between two parts of a turn: [`Datapath::before_poll`] comes
//! first, then smoltcp's `Interface::poll` with the device and the sockets, then
//! [`Datapath::take_answers`], [`Datapath::take_connected`], [`Datapath::pump`] and
//! [`Datapath::encrypt`].
use crate::conf::TunnelParams;
use crate::conn::{
    are_valid, counter_after, going_on, law_turn_exact, law_turn_gives_exact, law_valid_conns, pump,
    take_all_connected, Conn, Dialer, FromApp, Pumped, SOCKET_BUFFER,
};
use crate::device::{packets, VirtDevice};
use crate::ipv4::Ipv4;
use crate::noise::{
    decap_all, encap_all, is_initiation, is_spent, law_message_bytes, messages, packet_in, received,
    run_timers, sealed, start_tunnel, timers_run, transmitted, tunn_opened, tunn_view, OutcomeView,
    SendState,
    TunnView, BUFFER_LEN, DATA_OVERHEAD, KEEPALIVE,
};
use crate::resolver::{
    add_dns_socket, answered, asked, fresh_dns_socket, id_after, Answers, Resolver,
};
use crate::stack::{
    interface_push_addr, interface_set_gateway, interface_view, sockets_new, sockets_view,
    ConnectFault, Endpoint, SocketsView, TcpState, TcpView, UdpSendFault, UdpView,
};
use boringtun::noise::Tunn;
use smoltcp::iface::{Interface, SocketHandle, SocketSet};
use std::collections::VecDeque;
use vstd::prelude::*;
use vstd::string::StringSliceAdditionalSpecFns;

verus! {

/// Gives an interface the address of the tunnel and the default route. On an interface
/// without addresses and routes both are sure to find a place.
pub fn configure(iface: &mut Interface, params: &TunnelParams)
    requires
        params.spec_is_assignable(),
    ensures
        ({
            let v = interface_view(*old(iface));
            let v2 = interface_view(*final(iface));
            &&& v2.ipv4 == v.ipv4 || v2.ipv4 == v.ipv4.push((params.ip, params.prefix))
            &&& v.addresses == 0 ==> v2.ipv4 == v.ipv4.push((params.ip, params.prefix))
            &&& v2.gateway == Some(params.gateway) || v.gateway is None && v2.gateway is None
            &&& v.routes == 0 ==> v2.gateway == Some(params.gateway)
        }),
{
    interface_push_addr(iface, params.ip, params.prefix);
    let _ = interface_set_gateway(iface, params.gateway);
}

/// Everything between the applications and the network, but for the interface.
pub struct Datapath<R, D> {
    pub tunn: Tunn,
    pub device: VirtDevice,
    pub sockets: SocketSet<'static>,
    pub dns_handle: SocketHandle,
    pub dns_server: Ipv4,
    pub resolver: Resolver<D>,
    pub dialer: Dialer,
    pub conns: Vec<Conn<R>>,
    /// Where messages to the network are written.
    pub buf: Vec<u8>,
}

impl<R, D> Datapath<R, D> {
    /// Whether the buffer has its size and holds every packet that waits for a session,
    /// and every connection and the DNS server have sockets of their own.
    pub open spec fn is_valid(self) -> bool {
        &&& self.buf@.len() == BUFFER_LEN
        &&& tunn_view(self.tunn).fits(BUFFER_LEN as nat)
        &&& sockets_view(self.sockets).growable
        &&& sockets_view(self.sockets).udp.contains_key(self.dns_handle)
        &&& are_valid(self.conns@, sockets_view(self.sockets))
    }

    /// Whether nothing but the encrypted tunnel, the device and the buffer differ.
    pub open spec fn same_above(self, other: Self) -> bool {
        &&& self.sockets == other.sockets
        &&& self.dns_handle == other.dns_handle
        &&& self.dns_server == other.dns_server
        &&& self.resolver == other.resolver
        &&& self.dialer == other.dialer
        &&& self.conns == other.conns
    }

    /// Whether the encrypted tunnel, the device and the buffer are the same, and the
    /// DNS socket and server.
    pub open spec fn same_below(self, other: Self) -> bool {
        &&& self.tunn == other.tunn
        &&& self.device == other.device
        &&& self.buf == other.buf
        &&& self.dns_handle == other.dns_handle
        &&& self.dns_server == other.dns_server
    }

    /// Makes the datapath and begins the handshake. The first message to the network is
    /// its initiation.
    pub fn new(params: &TunnelParams, net_out: &mut Vec<Vec<u8>>) -> (path: Self)
        ensures
            path.is_valid(),
            tunn_view(path.tunn) == (TunnView {
                private_key: params.private_key@,
                peer_key: params.peer_key@,
                keepalive: KEEPALIVE,
                index: 0,
                queue: seq![Seq::<u8>::empty()],
                session: None,
                handshake: true,
            }),
            packets(path.device.rx) == Seq::<Seq<u8>>::empty(),
            packets(path.device.tx) == Seq::<Seq<u8>>::empty(),
            path.device.mtu == params.mtu,
            sockets_view(path.sockets) == (SocketsView {
                tcp: Map::empty(),
                udp: Map::empty().insert(path.dns_handle, fresh_dns_socket()),
                growable: true,
            }),
            path.dns_server == params.dns,
            path.resolver.last_id == 1,
            path.resolver.pending@.len() == 0,
            path.dialer.next_port == 0,
            path.conns@.len() == 0,
            messages(*final(net_out)).len() == messages(*old(net_out)).len() + 1,
            messages(*final(net_out)).drop_last() == messages(*old(net_out)),
            is_initiation(messages(*final(net_out)).last()),
            path.buf@.len() == 65535,
            tunn_view(path.tunn).keepalive == 10,
            path.device.rx@.len() == 0 && path.device.tx@.len() == 0,
            sockets_view(path.sockets).udp[path.dns_handle].port == 40000,
            sockets_view(path.sockets).tcp.dom() == Set::<SocketHandle>::empty(),
            final(net_out)@.len() == old(net_out)@.len() + 1,
            final(net_out)@.last()@.len() == 148,
            final(net_out)@.last()@.take(4) == seq![1u8, 0, 0, 0],
            forall|i: int|
                0 <= i < old(net_out)@.len() ==> (#[trigger] final(net_out)@[i])@ == old(net_out)@[i]@,
    {
        let ghost before = messages(*net_out);
        let device = VirtDevice::new(params.mtu);
        let mut sockets = sockets_new();
        let dns_handle = add_dns_socket(&mut sockets);
        let mut buf: Vec<u8> = vec![0u8; BUFFER_LEN];
        let tunn = start_tunnel(params.private_key, params.peer_key, &mut buf, net_out);
        proof {
            let sent = messages(*net_out);
            law_message_bytes(sent.last(), Seq::empty());
            assert(sent.last() == net_out@.last()@);
            assert forall|i: int| 0 <= i < before.len() implies (#[trigger] net_out@[i])@ == old(net_out)@[i]@ by {
                assert(sent.drop_last()[i] == before[i]);
            }
        }
        Datapath {
            tunn,
            device,
            sockets,
            dns_handle,
            dns_server: params.dns,
            resolver: Resolver::new(),
            dialer: Dialer::new(),
            conns: Vec::new(),
            buf,
        }
    }

    /// Takes a message from the network.
    pub fn receive(&mut self, message: &[u8], net_out: &mut Vec<Vec<u8>>)
        requires
            old(self).is_valid(),
            message@.len() <= BUFFER_LEN,
        ensures
            final(self).is_valid(),
            final(self).same_above(*old(self)),
            final(self).device.tx == old(self).device.tx,
            final(self).device.mtu == old(self).device.mtu,
            packets(old(self).device.rx).len() <= packets(final(self).device.rx).len(),
            packets(final(self).device.rx).take(packets(old(self).device.rx).len() as int)
                == packets(old(self).device.rx),
            messages(*old(net_out)).len() <= messages(*final(net_out)).len(),
            messages(*final(net_out)).take(messages(*old(net_out)).len() as int) == messages(
                *old(net_out),
            ),
            received(
                tunn_view(old(self).tunn),
                tunn_opened(old(self).tunn, message@),
                message@,
                packets(final(self).device.rx).skip(packets(old(self).device.rx).len() as int),
                messages(*final(net_out)).skip(messages(*old(net_out)).len() as int),
                tunn_view(final(self).tunn),
            ),
            message@.len() > 0 && message@[0] != 1 && !is_spent(message@) ==> packets(
                final(self).device.rx,
            ) == packets(old(self).device.rx) + packet_in(
                tunn_opened(old(self).tunn, message@).0,
            ),
            ({
                let (out, mid) = tunn_opened(old(self).tunn, message@);
                let n = old(net_out)@.len() as int;
                let first = n + (if out is Network {
                    1int
                } else {
                    0int
                });
                message@.len() > 0 && message@[0] != 1 && !(message@.len() >= 16 && message@[0] == 4 && message@[9]
                    >= 252 && message@[10] == 255 && message@[11] == 255 && message@[12] == 255 && message@[13]
                    == 255 && message@[14] == 255 && message@[15] == 255) ==> {
                    &&& match out {
                        OutcomeView::TunnelV4(p) => final(self).device.rx@.len()
                            == old(self).device.rx@.len() + 1 && final(self).device.rx@.last()@ == p,
                        OutcomeView::TunnelV6(p) => final(self).device.rx@.len()
                            == old(self).device.rx@.len() + 1 && final(self).device.rx@.last()@ == p,
                        _ => final(self).device.rx@.len() == old(self).device.rx@.len(),
                    }
                    &&& out matches OutcomeView::Network(m) ==> final(net_out)@.len() > n && final(net_out)@[n]@ == m
                    &&& out is Done || out is Fault ==> final(net_out)@.len() == n && tunn_view(
                        final(self).tunn,
                    ) == mid
                    &&& !(out is Done) && !(out is Fault) ==> match mid.session {
                        Some(s) => {
                            &&& final(net_out)@.len() == first + mid.queue.len()
                            &&& forall|i: int|
                                0 <= i < mid.queue.len() ==> final(net_out)@[first + i]@ == sealed(
                                    SendState {
                                        counter: ((s.counter + i) % 0x1_0000_0000_0000_0000) as u64,
                                        ..s
                                    },
                                    #[trigger] mid.queue[i],
                                )
                            &&& tunn_view(final(self).tunn).queue.len() == 0
                        },
                        None => {
                            &&& final(net_out)@.len() == first + (if mid.queue.len() > 0
                                && !mid.handshake {
                                1int
                            } else {
                                0int
                            })
                            &&& tunn_view(final(self).tunn).queue.to_multiset() == mid.queue.to_multiset()
                        },
                    }
                }
            }),
            forall|i: int|
                0 <= i < old(net_out)@.len() ==> (#[trigger] final(net_out)@[i])@ == old(net_out)@[i]@,
            forall|i: int|
                0 <= i < old(self).device.rx@.len() ==> (#[trigger] final(self).device.rx@[i])@
                    == old(self).device.rx@[i]@,
    {
        decap_all(&mut self.tunn, message, &mut self.device, net_out);
    }

    /// Asks for the address of `name`. Whom to tell of it comes back with the reason
    /// where the query cannot be sent.
    pub fn resolve(&mut self, name: &str, resp: D) -> (r: Result<(), (D, UdpSendFault)>)
        requires
            old(self).is_valid(),
        ensures
            final(self).is_valid(),
            final(self).same_below(*old(self)),
            final(self).dialer == old(self).dialer,
            final(self).conns == old(self).conns,
            final(self).resolver.last_id == id_after(old(self).resolver.last_id, 1),
            ({
                let set = sockets_view(old(self).sockets);
                let id = final(self).resolver.last_id;
                let (sock, refusal) = asked(
                    set.udp[old(self).dns_handle],
                    old(self).dns_server,
                    name.spec_bytes(),
                    id,
                );
                &&& sockets_view(final(self).sockets) == (SocketsView {
                    udp: set.udp.insert(old(self).dns_handle, sock),
                    ..set
                })
                &&& match refusal {
                    None => r is Ok && final(self).resolver.pending@
                        == old(self).resolver.pending@.push((id, resp)),
                    Some(fault) => r == Err::<(), (D, UdpSendFault)>((resp, fault))
                        && final(self).resolver.pending@ == old(self).resolver.pending@,
                }
            }),
            final(self).resolver.last_id == (old(self).resolver.last_id + 1) % 65536,
            r is Ok ==> {
                let sock = sockets_view(old(self).sockets).udp[old(self).dns_handle];
                let sock2 = sockets_view(final(self).sockets).udp[old(self).dns_handle];
                let (q, to) = sock2.outbox.last();
                &&& sock2.outbox.drop_last() == sock.outbox
                &&& to == (Endpoint { ip: old(self).dns_server, port: 53 })
                &&& q.len() == name.spec_bytes().len() + 18
                &&& q[0] * 256 + q[1] == final(self).resolver.last_id
                &&& final(self).resolver.pending@.last() == (final(self).resolver.last_id, resp)
                &&& final(self).resolver.pending@.drop_last() == old(self).resolver.pending@
            },
    {
        self.resolver.resolve(&mut self.sockets, self.dns_handle, self.dns_server, name, resp)
    }

    /// Asks for a connection to `ip:port`. Whom to tell of it comes back with the reason
    /// where the stack refuses.
    pub fn connect(&mut self, iface: &mut Interface, ip: Ipv4, port: u16, resp: R) -> (r: Result<
        (),
        (R, ConnectFault),
    >)
        requires
            old(self).is_valid(),
        ensures
            final(self).is_valid(),
            final(self).same_below(*old(self)),
            final(self).resolver == old(self).resolver,
            final(self).dialer.next_port == counter_after(old(self).dialer.next_port, 1),
            interface_view(*final(iface)) == interface_view(*old(iface)),
            r is Ok <==> port != 0 && !ip.spec_is_unspecified() && interface_view(
                *old(iface),
            ).ipv4.len() > 0,
            match r {
                Ok(()) => {
                    let n = old(self).conns@.len() as int;
                    let conn = final(self).conns@[n];
                    &&& final(self).conns@ == old(self).conns@.push(conn)
                    &&& !sockets_view(old(self).sockets).has(conn.handle)
                    &&& packets(conn.pending) == Seq::<Seq<u8>>::empty()
                    &&& conn.resp == Some(resp)
                    &&& !conn.fin_sent
                    &&& sockets_view(final(self).sockets) == (SocketsView {
                        tcp: sockets_view(old(self).sockets).tcp.insert(
                            conn.handle,
                            TcpView {
                                state: TcpState::SynSent,
                                ends: Some(
                                    (
                                        Endpoint {
                                            ip: interface_view(*old(iface)).ipv4[0].0,
                                            port: final(self).dialer.local_port(),
                                        },
                                        Endpoint { ip, port },
                                    ),
                                ),
                                unsent: Seq::empty(),
                                received: Seq::empty(),
                                send_capacity: SOCKET_BUFFER as nat,
                                recv_capacity: SOCKET_BUFFER as nat,
                            },
                        ),
                        ..sockets_view(old(self).sockets)
                    })
                },
                Err((back, fault)) => {
                    &&& back == resp
                    &&& fault == ConnectFault::Unaddressable
                    &&& final(self).conns@ == old(self).conns@
                    &&& sockets_view(final(self).sockets) == sockets_view(old(self).sockets)
                },
            },
            final(self).dialer.next_port == (old(self).dialer.next_port + 1) % 65536,
            r is Ok ==> {
                let conn = final(self).conns@.last();
                let v = sockets_view(final(self).sockets).tcp[conn.handle];
                &&& final(self).conns@.drop_last() == old(self).conns@
                &&& conn.pending@.len() == 0 && conn.resp == Some(resp) && !conn.fin_sent
                &&& v.state == TcpState::SynSent
                &&& v.unsent.len() == 0 && v.received.len() == 0
                &&& v.send_capacity == 131072 && v.recv_capacity == 131072
                &&& v.ends matches Some((local, remote)) && remote == (Endpoint { ip, port })
                    && local.ip == interface_view(*old(iface)).ipv4[0].0 && local.port == 20000 + (
                old(self).dialer.next_port + 1) % 65536 % 40000
            },
    {
        match self.dialer.dial(iface, &mut self.sockets, ip, port, resp) {
            Ok(conn) => {
                self.conns.push(conn);
                Ok(())
            },
            Err(e) => Err(e),
        }
    }

    /// The part of a turn before the stack runs: sends what the timers of the encrypted
    /// tunnel ask for.
    pub fn before_poll(&mut self, net_out: &mut Vec<Vec<u8>>)
        requires
            old(self).is_valid(),
        ensures
            final(self).is_valid(),
            final(self).same_above(*old(self)),
            final(self).device == old(self).device,
            messages(*old(net_out)).len() <= messages(*final(net_out)).len(),
            messages(*final(net_out)).take(messages(*old(net_out)).len() as int) == messages(
                *old(net_out),
            ),
            timers_run(
                tunn_view(old(self).tunn),
                messages(*final(net_out)).skip(messages(*old(net_out)).len() as int),
                tunn_view(final(self).tunn),
            ),
    {
        run_timers(&mut self.tunn, &mut self.buf, net_out);
    }

    /// Reads the replies of the DNS server.
    pub fn take_answers(&mut self) -> (out: Answers<D>)
        requires
            old(self).is_valid(),
        ensures
            final(self).is_valid(),
            final(self).same_below(*old(self)),
            final(self).dialer == old(self).dialer,
            final(self).conns == old(self).conns,
            final(self).resolver.last_id == old(self).resolver.last_id,
            ({
                let set = sockets_view(old(self).sockets);
                let sock = set.udp[old(self).dns_handle];
                let all = answered(old(self).resolver.pending@, sock.inbox);
                &&& out.answers@ == all.answers
                &&& out.unreadable == all.unreadable
                &&& final(self).resolver.pending@ == all.pending
                &&& sockets_view(final(self).sockets) == (SocketsView {
                    udp: set.udp.insert(
                        old(self).dns_handle,
                        UdpView { inbox: all.inbox, ..sock },
                    ),
                    ..set
                })
            }),
    {
        self.resolver.take_answers(&mut self.sockets, self.dns_handle)
    }

    /// Whom to tell of each connection that it is established, in the order of the
    /// connections.
    pub fn take_connected(&mut self) -> (out: Vec<Option<R>>)
        requires
            old(self).is_valid(),
        ensures
            final(self).is_valid(),
            final(self).same_below(*old(self)),
            final(self).resolver == old(self).resolver,
            final(self).dialer == old(self).dialer,
            sockets_view(final(self).sockets) == sockets_view(old(self).sockets),
            final(self).conns@.len() == old(self).conns@.len(),
            out@.len() == old(self).conns@.len(),
            forall|i: int|
                #![trigger final(self).conns@[i]]
                #![trigger out@[i]]
                0 <= i < old(self).conns@.len() ==> {
                    let c = old(self).conns@[i];
                    if c.is_news(sockets_view(old(self).sockets).tcp[c.handle]) {
                        out@[i] == c.resp && final(self).conns@[i] == (Conn { resp: None, ..c })
                    } else {
                        out@[i] is None && final(self).conns@[i] == c
                    }
                },
            forall|i: int|
                #![trigger final(self).conns@[i]]
                #![trigger out@[i]]
                0 <= i < old(self).conns@.len() ==> {
                    let c = old(self).conns@[i];
                    let state = sockets_view(old(self).sockets).tcp[c.handle].state;
                    &&& out@[i] is Some <==> c.resp is Some && (state == TcpState::Established
                        || state == TcpState::CloseWait)
                    &&& out@[i] is Some ==> out@[i] == c.resp && final(self).conns@[i].resp is None
                    &&& out@[i] is None ==> final(self).conns@[i].resp == c.resp
                    &&& final(self).conns@[i].handle == c.handle
                    &&& final(self).conns@[i].pending == c.pending
                    &&& final(self).conns@[i].fin_sent == c.fin_sent
                },
    {
        take_all_connected(&mut self.sockets, &mut self.conns)
    }

    /// One turn of every connection, with what the applications sent, in the order of
    /// the connections.
    pub fn pump(&mut self, from_app: VecDeque<FromApp>) -> (out: Vec<Pumped>)
        requires
            old(self).is_valid(),
            from_app@.len() == old(self).conns@.len(),
        ensures
            final(self).is_valid(),
            final(self).same_below(*old(self)),
            final(self).resolver == old(self).resolver,
            final(self).dialer == old(self).dialer,
            out@.len() == old(self).conns@.len(),
            final(self).conns@.len() == going_on(out@, out@.len() as int),
            forall|i: int|
                0 <= i < old(self).conns@.len() ==> from_app@[i].serves(
                    old(self).conns@[i],
                    sockets_view(old(self).sockets).tcp[old(self).conns@[i].handle],
                    sockets_view(final(self).sockets).tcp[old(self).conns@[i].handle],
                    #[trigger] out@[i],
                ),
            forall|i: int|
                0 <= i < old(self).conns@.len() && #[trigger] out@[i].keep ==> from_app@[i].leaves(
                    old(self).conns@[i],
                    sockets_view(old(self).sockets).tcp[old(self).conns@[i].handle],
                    final(self).conns@[going_on(out@, i) as int],
                ),
            forall|handle: SocketHandle|
                (forall|i: int|
                    0 <= i < old(self).conns@.len() ==> old(self).conns@[i].handle != handle)
                    ==> #[trigger] sockets_view(final(self).sockets).tcp[handle] == sockets_view(
                    old(self).sockets,
                ).tcp[handle],
            sockets_view(final(self).sockets).udp == sockets_view(old(self).sockets).udp,
            sockets_view(final(self).sockets).tcp.dom() == sockets_view(
                old(self).sockets,
            ).tcp.dom(),
            forall|i: int|
                0 <= i < old(self).conns@.len() ==> {
                    let v = sockets_view(old(self).sockets).tcp[old(self).conns@[i].handle];
                    let v2 = sockets_view(final(self).sockets).tcp[old(self).conns@[i].handle];
                    &&& messages((#[trigger] out@[i]).to_app).flatten() + v2.received == v.received
                    &&& out@[i].to_app@.len() <= from_app@[i].room
                    &&& v2.received.len() > 0 ==> out@[i].to_app@.len() == from_app@[i].room
                    &&& out@[i].keep == !(v2.state == TcpState::Closed && v2.received.len() == 0)
                },
            forall|i: int|
                0 <= i < old(self).conns@.len() && #[trigger] out@[i].keep ==> {
                    let c = old(self).conns@[i];
                    let after = final(self).conns@[going_on(out@, i) as int];
                    let v = sockets_view(old(self).sockets).tcp[c.handle];
                    let v2 = sockets_view(final(self).sockets).tcp[c.handle];
                    &&& after.handle == c.handle && after.resp == c.resp
                    &&& v2.unsent + packets(after.pending).flatten() == v.unsent + (packets(
                        c.pending,
                    ).flatten() + packets(from_app@[i].pieces).flatten())
                    &&& from_app@[i].closed && c.resp is None && after.pending@.len() == 0
                        ==> after.fin_sent
                    &&& after.fin_sent && !c.fin_sent ==> from_app@[i].closed && c.resp is None
                        && after.pending@.len() == 0
                    &&& after.fin_sent && !c.fin_sent && v.state == TcpState::Established ==> v2.state
                        == TcpState::FinWait1
                    &&& after.fin_sent && !c.fin_sent && v.state == TcpState::CloseWait ==> v2.state
                        == TcpState::LastAck
                    &&& after.fin_sent == c.fin_sent ==> v2.state == v.state
                },
    {
        let ghost set0 = sockets_view(self.sockets);
        let ghost conns0 = self.conns@;
        let out = pump(&mut self.sockets, &mut self.conns, from_app);
        proof {
            let set = sockets_view(self.sockets);
            assert forall|i: int| 0 <= i < conns0.len() implies {
                let v = set0.tcp[conns0[i].handle];
                let v2 = set.tcp[conns0[i].handle];
                &&& messages((#[trigger] out@[i]).to_app).flatten() + v2.received == v.received
                &&& out@[i].to_app@.len() <= from_app@[i].room
                &&& v2.received.len() > 0 ==> out@[i].to_app@.len() == from_app@[i].room
                &&& out@[i].keep == !(v2.state == TcpState::Closed && v2.received.len() == 0)
            } by {
                let v = set0.tcp[conns0[i].handle];
                let v2 = set.tcp[conns0[i].handle];
                law_turn_gives_exact(conns0[i], v, from_app@[i], v2, out@[i]);
            }
            assert forall|i: int| 0 <= i < conns0.len() && #[trigger] out@[i].keep implies {
                let c = conns0[i];
                let after = self.conns@[going_on(out@, i) as int];
                let v = set0.tcp[c.handle];
                let v2 = set.tcp[c.handle];
                &&& after.handle == c.handle && after.resp == c.resp
                &&& v2.unsent + packets(after.pending).flatten() == v.unsent + (packets(
                    c.pending,
                ).flatten() + packets(from_app@[i].pieces).flatten())
                &&& from_app@[i].closed && c.resp is None && after.pending@.len() == 0
                    ==> after.fin_sent
                &&& after.fin_sent && !c.fin_sent ==> from_app@[i].closed && c.resp is None
                    && after.pending@.len() == 0
                &&& after.fin_sent && !c.fin_sent && v.state == TcpState::Established ==> v2.state
                    == TcpState::FinWait1
                &&& after.fin_sent && !c.fin_sent && v.state == TcpState::CloseWait ==> v2.state
                    == TcpState::LastAck
                &&& after.fin_sent == c.fin_sent ==> v2.state == v.state
            } by {
                let c = conns0[i];
                let after = self.conns@[going_on(out@, i) as int];
                law_turn_exact(
                    c,
                    set0.tcp[c.handle],
                    from_app@[i],
                    set.tcp[c.handle],
                    out@[i],
                    after,
                );
            }
        }
        out
    }

    /// Whether every packet that the device wants to send fits into one message.
    pub open spec fn spec_fits(self) -> bool {
        forall|i: int|
            0 <= i < packets(self.device.tx).len() ==> #[trigger] packets(self.device.tx)[i].len()
                + DATA_OVERHEAD <= BUFFER_LEN
    }

    /// Whether every packet that the device wants to send fits into one message.
    pub fn fits(&self) -> (yes: bool)
        ensures
            yes == self.spec_fits(),
            yes <==> forall|i: int|
                0 <= i < self.device.tx@.len() ==> (#[trigger] self.device.tx@[i])@.len() <= 65503,
    {
        let mut i: usize = 0;
        while i < self.device.tx.len()
            invariant
                i <= self.device.tx@.len(),
                forall|k: int|
                    0 <= k < i ==> #[trigger] packets(self.device.tx)[k].len() + DATA_OVERHEAD
                        <= BUFFER_LEN,
                forall|k: int| 0 <= k < i ==> (#[trigger] self.device.tx@[k])@.len() <= 65503,
            decreases self.device.tx@.len() - i,
        {
            assert(packets(self.device.tx)[i as int] == self.device.tx@[i as int]@);
            if self.device.tx[i].len() > BUFFER_LEN - DATA_OVERHEAD {
                return false;
            }
            i = i + 1;
        }
        true
    }

    /// The last part of a turn: encrypts the packets that the stack sent.
    pub fn encrypt(&mut self, net_out: &mut Vec<Vec<u8>>)
        requires
            old(self).is_valid(),
            old(self).spec_fits(),
        ensures
            final(self).is_valid(),
            final(self).same_above(*old(self)),
            final(self).device.rx == old(self).device.rx,
            final(self).device.mtu == old(self).device.mtu,
            packets(final(self).device.tx) == Seq::<Seq<u8>>::empty(),
            messages(*old(net_out)).len() <= messages(*final(net_out)).len(),
            messages(*final(net_out)).take(messages(*old(net_out)).len() as int) == messages(
                *old(net_out),
            ),
            transmitted(
                tunn_view(old(self).tunn),
                packets(old(self).device.tx),
                messages(*final(net_out)).skip(messages(*old(net_out)).len() as int),
                tunn_view(final(self).tunn),
            ),
            final(self).device.tx@.len() == 0,
            tunn_view(old(self).tunn).session matches Some(s) ==> {
                &&& final(net_out)@.len() == old(net_out)@.len() + old(self).device.tx@.len()
                &&& forall|i: int|
                    0 <= i < old(self).device.tx@.len() ==> final(net_out)@[old(net_out)@.len() + i]@ == sealed(
                        SendState {
                            counter: ((s.counter + i) % 0x1_0000_0000_0000_0000) as u64,
                            ..s
                        },
                        (#[trigger] old(self).device.tx@[i])@,
                    )
                &&& tunn_view(final(self).tunn) == (TunnView {
                    session: Some(
                        SendState {
                            counter: ((s.counter + old(self).device.tx@.len()) % 0x1_0000_0000_0000_0000) as u64,
                            ..s
                        },
                    ),
                    ..tunn_view(old(self).tunn)
                })
            },
            tunn_view(old(self).tunn).session is None ==> {
                let n = tunn_view(old(self).tunn).queue.len();
                &&& final(net_out)@.len() == old(net_out)@.len() + (if old(self).device.tx@.len() > 0
                    && !tunn_view(old(self).tunn).handshake {
                    1int
                } else {
                    0int
                })
                &&& final(net_out)@.len() > old(net_out)@.len() ==> is_initiation(final(net_out)@.last()@)
                &&& tunn_view(final(self).tunn).session is None
                &&& tunn_view(final(self).tunn).handshake == (tunn_view(old(self).tunn).handshake
                    || old(self).device.tx@.len() > 0)
                &&& tunn_view(final(self).tunn).queue.len() == (if n + old(self).device.tx@.len() <= 256 {
                    (n + old(self).device.tx@.len()) as nat
                } else if n <= 256 {
                    256nat
                } else {
                    n
                })
                &&& tunn_view(final(self).tunn).queue.take(n as int) == tunn_view(old(self).tunn).queue
                &&& forall|i: int|
                    0 <= i < tunn_view(final(self).tunn).queue.len() - n
                        ==> tunn_view(final(self).tunn).queue[n + i]
                        == (#[trigger] old(self).device.tx@[i])@
            },
            forall|i: int| 0 <= i < old(net_out)@.len() ==> (#[trigger] final(net_out)@[i])@ == old(net_out)@[i]@,
    {
        encap_all(&mut self.tunn, &mut self.device, &mut self.buf, net_out);
    }
}

/// A datapath in order has a buffer of 65535 bytes and at most 256 packets that wait for a
/// session, each of which fits into it with 32 bytes to spare. The DNS socket is there, and
/// so is the socket of each connection, which no other connection has.
pub proof fn law_valid_path<R, D>(path: Datapath<R, D>, i: int, j: int)
    requires
        path.is_valid(),
    ensures
        path.buf@.len() == 65535,
        tunn_view(path.tunn).queue.len() <= 256,
        0 <= i < tunn_view(path.tunn).queue.len() ==> tunn_view(path.tunn).queue[i].len() <= 65503,
        sockets_view(path.sockets).udp.contains_key(path.dns_handle),
        0 <= i < path.conns@.len() ==> sockets_view(path.sockets).tcp.contains_key(
            path.conns@[i].handle,
        ),
        0 <= i < j < path.conns@.len() ==> path.conns@[i].handle != path.conns@[j].handle,
{
    if 0 <= i < j < path.conns@.len() {
        law_valid_conns(path.conns@, sockets_view(path.sockets), i, j);
    }
}

/// The parts of a datapath are those above and those below. Where nothing differs in
/// either, only what lies between can: the sockets, the requests and the connections.
pub proof fn law_same_parts<R, D>(a: Datapath<R, D>, b: Datapath<R, D>)
    ensures
        a.same_above(b) <==> a == (Datapath { tunn: a.tunn, device: a.device, buf: a.buf, ..b }),
        a.same_below(b) <==> a == (Datapath {
            sockets: a.sockets,
            resolver: a.resolver,
            dialer: a.dialer,
            conns: a.conns,
            ..b
        }),
{
}

} // verus!

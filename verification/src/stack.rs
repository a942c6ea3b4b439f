//! The userspace TCP/IP stack: what the library relies on of smoltcp.
//!
//! smoltcp's sockets, socket set and interface are opaque here. Each has one
//! view, which lists the part of its contents that the datapath depends on, and
//! each smoltcp method in use has one function below that states what the method
//! does to that view. None of this is proved: it restates smoltcp's source.
use crate::ipv4::Ipv4;
use smoltcp::iface::{Interface, SocketHandle, SocketSet};
use smoltcp::socket::{tcp, udp};
use smoltcp::wire::{IpAddress, IpCidr, Ipv4Address};
use vstd::prelude::*;

verus! {

/// smoltcp's TCP socket.
#[verifier::external_type_specification]
#[verifier::external_body]
pub struct ExTcpSocket<'a>(smoltcp::socket::tcp::Socket<'a>);

/// smoltcp's UDP socket.
#[verifier::external_type_specification]
#[verifier::external_body]
pub struct ExUdpSocket<'a>(smoltcp::socket::udp::Socket<'a>);

/// smoltcp's set of sockets.
#[verifier::external_type_specification]
#[verifier::external_body]
pub struct ExSocketSet<'a>(smoltcp::iface::SocketSet<'a>);

/// smoltcp's key of one socket in a set.
#[verifier::external_type_specification]
#[verifier::external_body]
pub struct ExSocketHandle(smoltcp::iface::SocketHandle);

/// smoltcp's network interface.
#[verifier::external_type_specification]
#[verifier::external_body]
pub struct ExInterface(smoltcp::iface::Interface);

/// The states of a TCP connection, after RFC 793.
#[derive(Clone, Copy, Debug, PartialEq, Eq, Structural)]
pub enum TcpState {
    Closed,
    Listen,
    SynSent,
    SynReceived,
    Established,
    FinWait1,
    FinWait2,
    CloseWait,
    Closing,
    LastAck,
    TimeWait,
}

impl TcpState {
    /// Whether a socket in this state exchanges packets.
    pub open spec fn is_open(self) -> bool {
        self != TcpState::Closed && self != TcpState::TimeWait
    }

    /// Whether the transmit half is open in this state.
    pub open spec fn may_send(self) -> bool {
        self == TcpState::Established || self == TcpState::CloseWait
    }

    /// The state that closing the transmit half leads to.
    pub open spec fn closed(self) -> TcpState {
        match self {
            TcpState::Listen | TcpState::SynSent => TcpState::Closed,
            TcpState::SynReceived | TcpState::Established => TcpState::FinWait1,
            TcpState::CloseWait => TcpState::LastAck,
            _ => self,
        }
    }
}

/// One end of a connection.
pub struct Endpoint {
    pub ip: Ipv4,
    pub port: u16,
}

/// What the datapath depends on of a TCP socket.
pub struct TcpView {
    pub state: TcpState,
    /// The local and the remote end, once a connection was asked for.
    pub ends: Option<(Endpoint, Endpoint)>,
    /// The bytes in the transmit buffer, oldest first.
    pub unsent: Seq<u8>,
    /// The bytes in the receive buffer, oldest first.
    pub received: Seq<u8>,
    /// How many bytes the transmit buffer holds at most.
    pub send_capacity: nat,
    /// How many bytes the receive buffer holds at most.
    pub recv_capacity: nat,
}

impl TcpView {
    /// How many more bytes the transmit buffer takes.
    pub open spec fn room(self) -> nat {
        if self.unsent.len() <= self.send_capacity {
            (self.send_capacity - self.unsent.len()) as nat
        } else {
            0
        }
    }

    /// Whether bytes may be handed to the socket and it takes at least one.
    pub open spec fn can_send(self) -> bool {
        self.state.may_send() && self.room() > 0
    }
}

/// The contents of a TCP socket.
pub uninterp spec fn tcp_view(s: smoltcp::socket::tcp::Socket<'static>) -> TcpView;

/// What the datapath depends on of a UDP socket.
pub struct UdpView {
    /// The local port, 0 as long as the socket is not bound.
    pub port: u16,
    /// The payloads that arrived and were not read yet, oldest first.
    pub inbox: Seq<Seq<u8>>,
    /// The payloads that wait to be sent, each with where it goes, oldest first.
    pub outbox: Seq<(Seq<u8>, Endpoint)>,
    /// How many packets and how many payload bytes each direction holds at most.
    pub packet_capacity: nat,
    pub payload_capacity: nat,
    /// How many more packets the transmit buffer has places for. Padding takes one too.
    pub places: nat,
    /// How many more payload bytes the transmit buffer, which is a ring, has room for.
    pub free: nat,
    /// How many of those lie in one piece behind the last payload.
    pub run: nat,
}

impl UdpView {
    /// Whether a payload has to go to the front of the ring, behind padding that fills
    /// the ring to its end.
    pub open spec fn is_padded(self, len: nat) -> bool {
        &&& len <= self.payload_capacity
        &&& self.places > 0
        &&& self.run < len
        &&& len <= self.free - self.run
    }

    /// Whether the transmit buffer takes a payload of `len` bytes, which has to lie in
    /// one piece.
    pub open spec fn takes(self, len: nat) -> bool {
        &&& len <= self.payload_capacity
        &&& self.places > 0
        &&& len <= self.free
        &&& len <= self.run || self.is_padded(len) && self.places > 1
    }

    /// The socket after its transmit buffer took a payload.
    pub open spec fn with_sent(self, data: Seq<u8>, to: Endpoint) -> UdpView {
        let len = data.len();
        let outbox = self.outbox.push((data, to));
        if len <= self.run {
            let free = (self.free - len) as nat;
            UdpView {
                outbox,
                places: (self.places - 1) as nat,
                free,
                run: if len == self.run {
                    free
                } else {
                    (self.run - len) as nat
                },
                ..self
            }
        } else {
            let free = (self.free - self.run - len) as nat;
            UdpView { outbox, places: (self.places - 2) as nat, free, run: free, ..self }
        }
    }

    /// The socket after its transmit buffer refused a payload. Padding may have taken
    /// the last place.
    pub open spec fn with_refused(self, len: nat) -> UdpView {
        if self.is_padded(len) {
            let free = (self.free - self.run) as nat;
            UdpView { places: (self.places - 1) as nat, free, run: free, ..self }
        } else {
            self
        }
    }
}

/// The contents of a UDP socket.
pub uninterp spec fn udp_view(s: smoltcp::socket::udp::Socket<'static>) -> UdpView;

/// What the datapath depends on of a set of sockets.
pub struct SocketsView {
    pub tcp: Map<SocketHandle, TcpView>,
    pub udp: Map<SocketHandle, UdpView>,
    /// Whether the set makes room for any number of sockets.
    pub growable: bool,
}

impl SocketsView {
    /// Whether a handle stands for a socket of the set.
    pub open spec fn has(self, handle: SocketHandle) -> bool {
        self.tcp.contains_key(handle) || self.udp.contains_key(handle)
    }
}

/// The contents of a set of sockets.
pub uninterp spec fn sockets_view(set: smoltcp::iface::SocketSet<'static>) -> SocketsView;

/// What the datapath depends on of an interface.
pub struct InterfaceView {
    /// The IPv4 addresses of the interface with their prefix lengths, in order.
    pub ipv4: Seq<(Ipv4, u8)>,
    /// How many addresses of either IP version the interface has.
    pub addresses: nat,
    /// The gateway of the last default IPv4 route.
    pub gateway: Option<Ipv4>,
    /// How many routes the interface has.
    pub routes: nat,
}

/// The contents of an interface.
pub uninterp spec fn interface_view(iface: smoltcp::iface::Interface) -> InterfaceView;

/// Why a TCP socket refused to connect.
#[derive(Clone, Copy, Debug, PartialEq, Eq, Structural)]
pub enum ConnectFault {
    InvalidState,
    Unaddressable,
}

/// Why a UDP socket refused to be bound.
#[derive(Clone, Copy, Debug, PartialEq, Eq, Structural)]
pub enum BindFault {
    InvalidState,
    Unaddressable,
}

/// Why a UDP socket refused a payload.
#[derive(Clone, Copy, Debug, PartialEq, Eq, Structural)]
pub enum UdpSendFault {
    Unaddressable,
    BufferFull,
}

/// `tcp::Socket::new`: a closed socket with empty buffers of the given sizes. It
/// panics on a receive buffer of more than 1 GiB.
#[verifier::external_body]
pub(crate) fn tcp_new(recv_capacity: usize, send_capacity: usize) -> (s: tcp::Socket<'static>)
    requires
        recv_capacity <= 0x4000_0000,
    ensures
        tcp_view(s) == (TcpView {
            state: TcpState::Closed,
            ends: None,
            unsent: Seq::empty(),
            received: Seq::empty(),
            send_capacity: send_capacity as nat,
            recv_capacity: recv_capacity as nat,
        }),
{
    tcp::Socket::new(
        tcp::SocketBuffer::new(vec![0u8; recv_capacity]),
        tcp::SocketBuffer::new(vec![0u8; send_capacity]),
    )
}

/// `tcp::Socket::connect`, with the context of an interface and with the local
/// address left to the interface, which takes its first IPv4 address. The socket
/// is left as it was where the call fails. The initial sequence number, which is
/// random, is no part of the view.
#[verifier::external_body]
pub(crate) fn tcp_connect(
    s: &mut tcp::Socket<'static>,
    iface: &mut Interface,
    ip: Ipv4,
    port: u16,
    local_port: u16,
) -> (r: Result<(), ConnectFault>)
    ensures
        interface_view(*final(iface)) == interface_view(*old(iface)),
        r == (if tcp_view(*old(s)).state.is_open() {
            Err(ConnectFault::InvalidState)
        } else if port == 0 || ip.spec_is_unspecified() || local_port == 0 || interface_view(
            *old(iface),
        ).ipv4.len() == 0 {
            Err(ConnectFault::Unaddressable)
        } else {
            Ok(())
        }),
        r is Err ==> tcp_view(*final(s)) == tcp_view(*old(s)),
        r is Ok ==> tcp_view(*final(s)) == (TcpView {
            state: TcpState::SynSent,
            ends: Some(
                (
                    Endpoint { ip: interface_view(*old(iface)).ipv4[0].0, port: local_port },
                    Endpoint { ip, port },
                ),
            ),
            unsent: Seq::empty(),
            received: Seq::empty(),
            ..tcp_view(*old(s))
        }),
{
    let remote = (IpAddress::Ipv4(Ipv4Address::new(ip.a, ip.b, ip.c, ip.d)), port);
    match s.connect(iface.context(), remote, local_port) {
        Ok(()) => Ok(()),
        Err(tcp::ConnectError::InvalidState) => Err(ConnectFault::InvalidState),
        Err(tcp::ConnectError::Unaddressable) => Err(ConnectFault::Unaddressable),
    }
}

/// `tcp::Socket::may_send`: whether the transmit half is open.
#[verifier::external_body]
pub(crate) fn tcp_may_send(s: &tcp::Socket<'static>) -> (yes: bool)
    ensures
        yes == tcp_view(*s).state.may_send(),
{
    s.may_send()
}

/// `tcp::Socket::can_send`: whether the transmit half is open and the transmit
/// buffer is not full.
#[verifier::external_body]
pub(crate) fn tcp_can_send(s: &tcp::Socket<'static>) -> (yes: bool)
    ensures
        yes == tcp_view(*s).can_send(),
{
    s.can_send()
}

/// `tcp::Socket::send_slice`: appends to the transmit buffer as many of the bytes
/// as it takes, and says how many. It fails, and changes nothing, where the
/// transmit half is not open.
#[verifier::external_body]
pub(crate) fn tcp_send_slice(s: &mut tcp::Socket<'static>, data: &[u8]) -> (r: Option<usize>)
    ensures
        match r {
            Some(n) => {
                &&& tcp_view(*old(s)).state.may_send()
                &&& n as nat == (if data@.len() <= tcp_view(*old(s)).room() {
                    data@.len()
                } else {
                    tcp_view(*old(s)).room()
                })
                &&& tcp_view(*final(s)) == (TcpView {
                    unsent: tcp_view(*old(s)).unsent + data@.take(n as int),
                    ..tcp_view(*old(s))
                })
            },
            None => {
                &&& !tcp_view(*old(s)).state.may_send()
                &&& tcp_view(*final(s)) == tcp_view(*old(s))
            },
        },
{
    s.send_slice(data).ok()
}

/// `tcp::Socket::close`: closes the transmit half.
#[verifier::external_body]
pub(crate) fn tcp_close(s: &mut tcp::Socket<'static>)
    ensures
        tcp_view(*final(s)) == (TcpView {
            state: tcp_view(*old(s)).state.closed(),
            ..tcp_view(*old(s))
        }),
{
    s.close()
}

/// `tcp::Socket::can_recv`: whether the receive buffer holds anything. (In every
/// state the socket gives out what its receive buffer still holds.)
#[verifier::external_body]
pub(crate) fn tcp_can_recv(s: &tcp::Socket<'static>) -> (yes: bool)
    ensures
        yes == (tcp_view(*s).received.len() > 0),
{
    s.can_recv()
}

/// `tcp::Socket::recv_slice`: moves the oldest received bytes to the front of
/// `data`, as many as it holds, and says how many. It may fail only where nothing
/// was received, and then changes nothing.
#[verifier::external_body]
pub(crate) fn tcp_recv_slice(s: &mut tcp::Socket<'static>, data: &mut Vec<u8>) -> (r: Option<usize>)
    ensures
        final(data)@.len() == old(data)@.len(),
        match r {
            Some(n) => {
                let received = tcp_view(*old(s)).received;
                &&& n as nat == (if received.len() <= old(data)@.len() {
                    received.len()
                } else {
                    old(data)@.len()
                })
                &&& final(data)@ == received.take(n as int) + old(data)@.skip(n as int)
                &&& tcp_view(*final(s)) == (TcpView {
                    received: received.skip(n as int),
                    ..tcp_view(*old(s))
                })
            },
            None => {
                &&& tcp_view(*old(s)).received.len() == 0
                &&& tcp_view(*final(s)) == tcp_view(*old(s))
                &&& final(data)@ == old(data)@
            },
        },
{
    s.recv_slice(data.as_mut_slice()).ok()
}

/// `tcp::Socket::state`.
#[verifier::external_body]
pub(crate) fn tcp_state(s: &tcp::Socket<'static>) -> (state: TcpState)
    ensures
        state == tcp_view(*s).state,
{
    match s.state() {
        tcp::State::Closed => TcpState::Closed,
        tcp::State::Listen => TcpState::Listen,
        tcp::State::SynSent => TcpState::SynSent,
        tcp::State::SynReceived => TcpState::SynReceived,
        tcp::State::Established => TcpState::Established,
        tcp::State::FinWait1 => TcpState::FinWait1,
        tcp::State::FinWait2 => TcpState::FinWait2,
        tcp::State::CloseWait => TcpState::CloseWait,
        tcp::State::Closing => TcpState::Closing,
        tcp::State::LastAck => TcpState::LastAck,
        tcp::State::TimeWait => TcpState::TimeWait,
    }
}

/// `udp::Socket::new`: an unbound socket with empty buffers, each for the given
/// number of packets and of payload bytes.
#[verifier::external_body]
pub(crate) fn udp_new(packets: usize, bytes: usize) -> (s: udp::Socket<'static>)
    ensures
        udp_view(s) == (UdpView {
            port: 0,
            inbox: Seq::empty(),
            outbox: Seq::empty(),
            packet_capacity: packets as nat,
            payload_capacity: bytes as nat,
            places: packets as nat,
            free: bytes as nat,
            run: bytes as nat,
        }),
{
    udp::Socket::new(
        udp::PacketBuffer::new(vec![udp::PacketMetadata::EMPTY; packets], vec![0u8; bytes]),
        udp::PacketBuffer::new(vec![udp::PacketMetadata::EMPTY; packets], vec![0u8; bytes]),
    )
}

/// `udp::Socket::bind`, to a port on every local address. Port 0 is refused, and
/// so is a second binding.
#[verifier::external_body]
pub(crate) fn udp_bind(s: &mut udp::Socket<'static>, port: u16) -> (r: Result<(), BindFault>)
    ensures
        r == (if port == 0 {
            Err(BindFault::Unaddressable)
        } else if udp_view(*old(s)).port != 0 {
            Err(BindFault::InvalidState)
        } else {
            Ok(())
        }),
        r is Ok ==> udp_view(*final(s)) == (UdpView { port, ..udp_view(*old(s)) }),
        r is Err ==> udp_view(*final(s)) == udp_view(*old(s)),
{
    match s.bind(port) {
        Ok(()) => Ok(()),
        Err(udp::BindError::InvalidState) => Err(BindFault::InvalidState),
        Err(udp::BindError::Unaddressable) => Err(BindFault::Unaddressable),
    }
}

/// `udp::Socket::send_slice`: puts one payload behind those that wait to be sent, or
/// refuses it. A payload lies in one piece in a ring, so it may need padding before it;
/// where the padding takes the last place for a packet, the payload is refused and the
/// padding stays.
#[verifier::external_body]
pub(crate) fn udp_send_slice(s: &mut udp::Socket<'static>, data: &[u8], ip: Ipv4, port: u16) -> (r:
    Result<(), UdpSendFault>)
    ensures
        r == (if udp_view(*old(s)).port == 0 || ip.spec_is_unspecified() || port == 0 {
            Err(UdpSendFault::Unaddressable)
        } else if udp_view(*old(s)).takes(data@.len()) {
            Ok(())
        } else {
            Err(UdpSendFault::BufferFull)
        }),
        udp_view(*final(s)) == (match r {
            Ok(()) => udp_view(*old(s)).with_sent(data@, Endpoint { ip, port }),
            Err(UdpSendFault::BufferFull) => udp_view(*old(s)).with_refused(data@.len()),
            Err(UdpSendFault::Unaddressable) => udp_view(*old(s)),
        }),
{
    let remote = (IpAddress::Ipv4(Ipv4Address::new(ip.a, ip.b, ip.c, ip.d)), port);
    match s.send_slice(data, remote) {
        Ok(()) => Ok(()),
        Err(udp::SendError::Unaddressable) => Err(UdpSendFault::Unaddressable),
        Err(udp::SendError::BufferFull) => Err(UdpSendFault::BufferFull),
    }
}

/// `udp::Socket::recv`: takes the oldest payload that arrived. It fails where
/// there is none.
#[verifier::external_body]
pub(crate) fn udp_recv(s: &mut udp::Socket<'static>) -> (r: Option<Vec<u8>>)
    ensures
        match r {
            Some(data) => {
                let inbox = udp_view(*old(s)).inbox;
                &&& inbox.len() > 0
                &&& data@ == inbox[0]
                &&& udp_view(*final(s)) == (UdpView {
                    inbox: inbox.drop_first(),
                    ..udp_view(*old(s))
                })
            },
            None => {
                &&& udp_view(*old(s)).inbox.len() == 0
                &&& udp_view(*final(s)) == udp_view(*old(s))
            },
        },
{
    s.recv().ok().map(|(data, _)| data.to_vec())
}

/// `SocketSet::new`, over an empty vector, which grows with the set.
#[verifier::external_body]
pub(crate) fn sockets_new() -> (set: SocketSet<'static>)
    ensures
        sockets_view(set) == (SocketsView {
            tcp: Map::empty(),
            udp: Map::empty(),
            growable: true,
        }),
{
    SocketSet::new(Vec::new())
}

/// `SocketSet::add`, of a TCP socket: the set has it from now on, under a handle
/// that stood for no socket before. It panics where the set cannot grow and is
/// full.
#[verifier::external_body]
pub(crate) fn sockets_add_tcp(set: &mut SocketSet<'static>, s: tcp::Socket<'static>) -> (handle:
    SocketHandle)
    requires
        sockets_view(*old(set)).growable,
    ensures
        !sockets_view(*old(set)).has(handle),
        sockets_view(*final(set)) == (SocketsView {
            tcp: sockets_view(*old(set)).tcp.insert(handle, tcp_view(s)),
            ..sockets_view(*old(set))
        }),
{
    set.add(s)
}

/// `SocketSet::add`, of a UDP socket.
#[verifier::external_body]
pub(crate) fn sockets_add_udp(set: &mut SocketSet<'static>, s: udp::Socket<'static>) -> (handle:
    SocketHandle)
    requires
        sockets_view(*old(set)).growable,
    ensures
        !sockets_view(*old(set)).has(handle),
        sockets_view(*final(set)) == (SocketsView {
            udp: sockets_view(*old(set)).udp.insert(handle, udp_view(s)),
            ..sockets_view(*old(set))
        }),
{
    set.add(s)
}

/// `SocketSet::remove`. It panics where the handle stands for no socket.
#[verifier::external_body]
pub(crate) fn sockets_remove(set: &mut SocketSet<'static>, handle: SocketHandle)
    requires
        sockets_view(*old(set)).has(handle),
    ensures
        sockets_view(*final(set)) == (SocketsView {
            tcp: sockets_view(*old(set)).tcp.remove(handle),
            udp: sockets_view(*old(set)).udp.remove(handle),
            ..sockets_view(*old(set))
        }),
{
    let _ = set.remove(handle);
}

/// `SocketSet::get_mut`, of a TCP socket: the socket under a handle, in place. It
/// panics where the handle stands for no TCP socket.
#[verifier::external_body]
pub(crate) fn sockets_tcp<'a>(set: &'a mut SocketSet<'static>, handle: SocketHandle) -> (s:
    &'a mut tcp::Socket<'static>)
    requires
        sockets_view(*old(set)).tcp.contains_key(handle),
    ensures
        tcp_view(*s) == sockets_view(*old(set)).tcp[handle],
        sockets_view(*final(set)) == (SocketsView {
            tcp: sockets_view(*old(set)).tcp.insert(handle, tcp_view(*final(s))),
            ..sockets_view(*old(set))
        }),
{
    set.get_mut::<tcp::Socket>(handle)
}

/// `SocketSet::get_mut`, of a UDP socket.
#[verifier::external_body]
pub(crate) fn sockets_udp<'a>(set: &'a mut SocketSet<'static>, handle: SocketHandle) -> (s:
    &'a mut udp::Socket<'static>)
    requires
        sockets_view(*old(set)).udp.contains_key(handle),
    ensures
        udp_view(*s) == sockets_view(*old(set)).udp[handle],
        sockets_view(*final(set)) == (SocketsView {
            udp: sockets_view(*old(set)).udp.insert(handle, udp_view(*final(s))),
            ..sockets_view(*old(set))
        }),
{
    set.get_mut::<udp::Socket>(handle)
}

/// `Interface::update_ip_addrs`, pushing one IPv4 address onto the list, which has
/// a fixed number of places: it has one for a first address, and where it is full
/// the list stays as it is. The call panics on a prefix of more than 32 bits and on
/// an address that no interface may carry.
#[verifier::external_body]
pub(crate) fn interface_push_addr(iface: &mut Interface, ip: Ipv4, prefix: u8)
    requires
        prefix <= 32,
        ip.spec_is_assignable(),
    ensures
        interface_view(*final(iface)) == interface_view(*old(iface)) || interface_view(
            *final(iface),
        ) == (InterfaceView {
            ipv4: interface_view(*old(iface)).ipv4.push((ip, prefix)),
            addresses: interface_view(*old(iface)).addresses + 1,
            ..interface_view(*old(iface))
        }),
        interface_view(*old(iface)).addresses == 0 ==> interface_view(*final(iface)).addresses == 1,
{
    let cidr = IpCidr::new(IpAddress::Ipv4(Ipv4Address::new(ip.a, ip.b, ip.c, ip.d)), prefix);
    iface.update_ip_addrs(
        |addrs|
            {
                let _ = addrs.push(cidr);
            },
    );
}

/// `Routes::add_default_ipv4_route`, on the routes of an interface: the gateway
/// takes the place of the one before it. The call fails, and leaves no default
/// route, only where there was none and the routing table is full. The table has a
/// fixed number of places, at least one.
#[verifier::external_body]
pub(crate) fn interface_set_gateway(iface: &mut Interface, gateway: Ipv4) -> (done: bool)
    ensures
        !done ==> interface_view(*old(iface)).gateway is None && interface_view(*old(iface)).routes
            > 0,
        interface_view(*final(iface)) == (InterfaceView {
            gateway: if done {
                Some(gateway)
            } else {
                None
            },
            routes: if done && interface_view(*old(iface)).gateway is None {
                interface_view(*old(iface)).routes + 1
            } else {
                interface_view(*old(iface)).routes
            },
            ..interface_view(*old(iface))
        }),
{
    let via = Ipv4Address::new(gateway.a, gateway.b, gateway.c, gateway.d);
    iface.routes_mut().add_default_ipv4_route(via).is_ok()
}

/// Bytes can be handed to a socket in two states only. Closing leads out of them, and
/// closing again changes nothing. A buffer has room for what is missing to its capacity.
pub proof fn law_tcp_states(s: TcpState, v: TcpView)
    ensures
        s.may_send() <==> s == TcpState::Established || s == TcpState::CloseWait,
        !s.closed().may_send(),
        s.closed().closed() == s.closed(),
        s.closed() != s <==> s.may_send() || s == TcpState::Listen || s == TcpState::SynSent || s
            == TcpState::SynReceived,
        s.closed() == TcpState::Closed <==> s == TcpState::Closed || s == TcpState::Listen || s
            == TcpState::SynSent,
        s.closed() == TcpState::LastAck <==> s == TcpState::LastAck || s == TcpState::CloseWait,
        v.unsent.len() <= v.send_capacity ==> v.unsent.len() + v.room() == v.send_capacity,
        v.unsent.len() > v.send_capacity ==> v.room() == 0,
{
}

/// A payload that the transmit buffer takes is put behind the others and takes up its
/// bytes and a place. One that it does not take leaves the payloads as they are.
pub proof fn law_udp_sent(v: UdpView, data: Seq<u8>, to: Endpoint)
    requires
        v.takes(data.len()),
    ensures
        v.with_sent(data, to).outbox == v.outbox.push((data, to)),
        v.with_sent(data, to).places < v.places,
        v.with_sent(data, to).free + data.len() <= v.free,
        v.with_sent(data, to).inbox == v.inbox,
        v.with_sent(data, to).port == v.port,
        v.with_refused(data.len()).outbox == v.outbox,
        data.len() <= v.payload_capacity,
{
}

} // verus!

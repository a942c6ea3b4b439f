//! TCP connections through the tunnel: opening them, and moving bytes between their
//! sockets and the application.
use crate::device::packets;
use crate::ipv4::Ipv4;
use crate::noise::messages;
use crate::stack::{
    interface_view, sockets_add_tcp, sockets_remove, sockets_tcp, sockets_view, tcp_can_recv,
    tcp_can_send, tcp_close, tcp_connect, tcp_may_send, tcp_new, tcp_recv_slice, tcp_send_slice,
    tcp_state, tcp_view, ConnectFault, Endpoint, SocketsView, TcpState, TcpView,
};
use smoltcp::iface::{Interface, SocketHandle, SocketSet};
use smoltcp::socket::tcp;
use std::collections::VecDeque;
use vstd::prelude::*;
use vstd::seq_lib::lemma_flatten_concat;

verus! {

/// How many bytes a socket buffers in each direction.
pub const SOCKET_BUFFER: usize = 131072;

/// How many received bytes the application gets at most in one piece.
pub const CHUNK: usize = 32768;

/// One TCP connection, as the datapath sees it.
pub struct Conn<R> {
    pub handle: SocketHandle,
    /// Pieces of bytes from the application that the socket did not take yet.
    pub pending: VecDeque<Vec<u8>>,
    /// Whom to tell when the connection is established; `None` once that was done.
    pub resp: Option<R>,
    /// Whether the transmit half was closed.
    pub fin_sent: bool,
}

/// What came of one turn of a connection.
pub struct Pumped {
    /// Pieces of received bytes for the application, oldest first.
    pub to_app: Vec<Vec<u8>>,
    /// Whether the connection goes on.
    pub keep: bool,
}

/// What a socket takes of pieces of bytes when it has room for `room` bytes, and the
/// pieces that remain. A piece of which a part was taken remains with its rest.
pub open spec fn taken(pieces: Seq<Seq<u8>>, room: nat) -> (Seq<u8>, Seq<Seq<u8>>)
    decreases pieces.len(),
{
    if pieces.len() == 0 || room == 0 {
        (Seq::empty(), pieces)
    } else if pieces[0].len() <= room {
        let (bytes, rest) = taken(pieces.drop_first(), (room - pieces[0].len()) as nat);
        (pieces[0] + bytes, rest)
    } else {
        (
            pieces[0].take(room as int),
            seq![pieces[0].skip(room as int)] + pieces.drop_first(),
        )
    }
}

/// Bytes cut into pieces of `size`, the last of which may be shorter.
pub open spec fn pieces_of(bytes: Seq<u8>, size: nat) -> Seq<Seq<u8>>
    decreases bytes.len(),
    when size > 0
{
    if bytes.len() == 0 {
        Seq::empty()
    } else if bytes.len() <= size {
        seq![bytes]
    } else {
        seq![bytes.take(size as int)] + pieces_of(bytes.skip(size as int), size)
    }
}

/// Hands pending bytes to a socket as far as it takes them.
fn push_pending(s: &mut tcp::Socket<'static>, pending: &mut VecDeque<Vec<u8>>)
    ensures
        ({
            let v = tcp_view(*old(s));
            let (bytes, rest) = taken(packets(*old(pending)), v.room());
            &&& v.state.may_send() ==> packets(*final(pending)) == rest && tcp_view(*final(s)) == (
            TcpView { unsent: v.unsent + bytes, ..v })
            &&& !v.state.may_send() ==> packets(*final(pending)) == packets(*old(pending))
                && tcp_view(*final(s)) == v
        }),
{
    let ghost v0 = tcp_view(*s);
    let ghost p0 = packets(*pending);
    let ghost mut sent: Seq<u8> = Seq::empty();
    let mut go = true;
    assert(v0.unsent + sent =~= v0.unsent);
    assert(sent + taken(p0, v0.room()).0 =~= taken(p0, v0.room()).0);
    while go && pending.len() > 0
        invariant
            v0 == tcp_view(*old(s)),
            p0 == packets(*old(pending)),
            tcp_view(*s) == (TcpView { unsent: v0.unsent + sent, ..v0 }),
            !v0.state.may_send() ==> sent.len() == 0 && packets(*pending) == p0,
            v0.state.may_send() && go ==> ({
                let (bytes, rest) = taken(packets(*pending), tcp_view(*s).room());
                taken(p0, v0.room()) == (sent + bytes, rest)
            }),
            v0.state.may_send() && !go ==> taken(p0, v0.room()) == (sent, packets(*pending)),
        decreases
                pending@.len(),
                if go {
                    1int
                } else {
                    0int
                },
    {
        let ghost v = tcp_view(*s);
        let ghost before = packets(*pending);
        if !tcp_can_send(s) {
            go = false;
            assert(sent + Seq::<u8>::empty() =~= sent);
        } else {
            match pending.pop_front() {
                Some(mut front) => {
                    assert(front@ == before[0]);
                    assert(packets(*pending) =~= before.drop_first());
                    let n = tcp_send_slice(s, front.as_slice());
                    match n {
                        Some(n) => {
                            proof {
                                let part = front@.take(n as int);
                                assert((v0.unsent + sent) + part =~= v0.unsent + (sent + part));
                            }
                            if n == front.len() {
                                proof {
                                    assert(front@.take(n as int) =~= front@);
                                    let (bytes, rest) = taken(
                                        before.drop_first(),
                                        (v.room() - front@.len()) as nat,
                                    );
                                    assert(sent + (front@ + bytes) =~= (sent + front@) + bytes);
                                    sent = sent + front@;
                                }
                            } else {
                                let rest: Vec<u8> = front.split_off(n);
                                proof {
                                    sent = sent + before[0].take(n as int);
                                }
                                pending.push_front(rest);
                                assert(packets(*pending) =~= seq![before[0].skip(n as int)]
                                    + before.drop_first());
                                go = false;
                            }
                        },
                        None => {
                            assert(false);
                        },
                    }
                },
                None => {},
            }
        }
    }
    proof {
        if go && v0.state.may_send() {
            assert(packets(*pending).len() == 0);
            assert(sent + Seq::<u8>::empty() =~= sent);
        }
        if !v0.state.may_send() {
            assert(v0.unsent + sent =~= v0.unsent);
        }
    }
}

/// How many of `len` received bytes an application gets that has room for `room` pieces.
pub open spec fn given_len(len: nat, room: nat) -> nat {
    if len <= room * CHUNK {
        len
    } else {
        room * CHUNK as nat
    }
}

/// The pieces that an application with room for `room` of them gets of received bytes.
pub open spec fn given(received: Seq<u8>, room: nat) -> Seq<Seq<u8>> {
    pieces_of(received.take(given_len(received.len(), room) as int), CHUNK as nat)
}

/// The received bytes that an application with room for `room` pieces leaves.
pub open spec fn left_over(received: Seq<u8>, room: nat) -> Seq<u8> {
    received.skip(given_len(received.len(), room) as int)
}

/// With room for one more piece, the first piece comes first, and the others are those of
/// the bytes behind it.
proof fn lemma_given(received: Seq<u8>, room: nat, n: int)
    requires
        received.len() > 0,
        room > 0,
        n == (if received.len() <= CHUNK {
            received.len() as int
        } else {
            CHUNK as int
        }),
    ensures
        given(received, room) == seq![received.take(n)] + given(
            received.skip(n),
            (room - 1) as nat,
        ),
        left_over(received, room) == left_over(received.skip(n), (room - 1) as nat),
{
    let g = given_len(received.len(), room) as int;
    let rest = received.skip(n);
    let h = given_len(rest.len(), (room - 1) as nat) as int;
    assert(g == n + h);
    assert(received.take(g).take(n) =~= received.take(n));
    assert(received.take(g).skip(n) =~= rest.take(h));
    assert(received.skip(g) =~= rest.skip(h));
    if h == 0 {
        assert(received.take(g) =~= received.take(n));
        assert(rest.take(h) =~= Seq::empty());
        assert(given(received, room) =~= seq![received.take(n)] + given(
            rest,
            (room - 1) as nat,
        ));
    } else {
        assert(n == CHUNK);
    }
}

/// Takes what a socket received, in at most `room` pieces of at most [`CHUNK`] bytes.
fn pull_received(s: &mut tcp::Socket<'static>, room: usize) -> (to_app: Vec<Vec<u8>>)
    ensures
        messages(to_app) == given(tcp_view(*old(s)).received, room as nat),
        tcp_view(*final(s)) == (TcpView {
            received: left_over(tcp_view(*old(s)).received, room as nat),
            ..tcp_view(*old(s))
        }),
{
    let ghost v0 = tcp_view(*s);
    let ghost all = given(v0.received, room as nat);
    let ghost rest = left_over(v0.received, room as nat);
    let mut to_app: Vec<Vec<u8>> = Vec::new();
    let mut left: usize = room;
    assert(messages(to_app) =~= Seq::empty());
    assert(messages(to_app) + all =~= all);
    while left > 0 && tcp_can_recv(s)
        invariant
            v0 == tcp_view(*old(s)),
            all == given(v0.received, room as nat),
            rest == left_over(v0.received, room as nat),
            tcp_view(*s) == (TcpView { received: tcp_view(*s).received, ..v0 }),
            messages(to_app) + given(tcp_view(*s).received, left as nat) == all,
            left_over(tcp_view(*s).received, left as nat) == rest,
        decreases left,
    {
        let ghost received = tcp_view(*s).received;
        let ghost before = messages(to_app);
        let mut piece: Vec<u8> = vec![0u8; CHUNK];
        let n = tcp_recv_slice(s, &mut piece);
        match n {
            Some(n) => {
                piece.truncate(n);
                assert(piece@ =~= received.take(n as int));
                to_app.push(piece);
                proof {
                    lemma_given(received, left as nat, n as int);
                    let first = received.take(n as int);
                    let more = given(received.skip(n as int), (left - 1) as nat);
                    assert(messages(to_app) =~= before.push(first));
                    assert(before + (seq![first] + more) =~= messages(to_app) + more);
                }
            },
            None => {
                assert(false);
            },
        }
        left = left - 1;
    }
    proof {
        let received = tcp_view(*s).received;
        let g = given_len(received.len(), left as nat) as int;
        assert(g == 0);
        assert(received.take(g) =~= Seq::empty());
        assert(given(received, left as nat) =~= Seq::empty());
        assert(received.skip(g) =~= received);
        assert(messages(to_app) + Seq::empty() =~= messages(to_app));
    }
    to_app
}

impl<R> Conn<R> {
    /// The pieces that wait to be sent once those of the application joined them.
    pub open spec fn queued(self, from_app: VecDeque<Vec<u8>>) -> Seq<Seq<u8>> {
        packets(self.pending) + packets(from_app)
    }

    /// What the socket takes in one turn, and the pieces that remain.
    pub open spec fn turn_taken(self, v: TcpView, from_app: VecDeque<Vec<u8>>) -> (Seq<u8>, Seq<Seq<u8>>) {
        if v.state.may_send() {
            taken(self.queued(from_app), v.room())
        } else {
            (Seq::empty(), self.queued(from_app))
        }
    }

    /// Whether the application is still to be told that the connection is established.
    pub open spec fn is_news(self, v: TcpView) -> bool {
        self.resp is Some && v.state.may_send()
    }

    /// Whether a turn closes the transmit half: the application is done, all of its
    /// bytes were taken, and it was told of the connection.
    pub open spec fn turn_closes(self, v: TcpView, from_app: VecDeque<Vec<u8>>, app_closed: bool) -> bool {
        &&& !self.fin_sent
        &&& self.turn_taken(v, from_app).1.len() == 0
        &&& app_closed
        &&& self.resp is None
    }

    /// The socket after a turn.
    pub open spec fn turn_socket(
        self,
        v: TcpView,
        from_app: VecDeque<Vec<u8>>,
        app_closed: bool,
        room: usize,
    ) -> TcpView {
        TcpView {
            state: if self.turn_closes(v, from_app, app_closed) {
                v.state.closed()
            } else {
                v.state
            },
            unsent: v.unsent + self.turn_taken(v, from_app).0,
            received: left_over(v.received, room as nat),
            ..v
        }
    }

    /// Whom to tell that the connection is established, once it is. Nobody is told
    /// twice.
    pub fn take_connected(&mut self, sockets: &mut SocketSet<'static>) -> (connected: Option<R>)
        requires
            sockets_view(*old(sockets)).tcp.contains_key(old(self).handle),
        ensures
            sockets_view(*final(sockets)) == sockets_view(*old(sockets)),
            ({
                let news = old(self).is_news(sockets_view(*old(sockets)).tcp[old(self).handle]);
                &&& connected == (if news {
                    old(self).resp
                } else {
                    None
                })
                &&& *final(self) == (if news {
                    Conn { resp: None, ..*old(self) }
                } else {
                    *old(self)
                })
            }),
            ({
                let state = sockets_view(*old(sockets)).tcp[old(self).handle].state;
                if state == TcpState::Established || state == TcpState::CloseWait {
                    connected == old(self).resp && final(self).resp is None
                } else {
                    connected is None && final(self).resp == old(self).resp
                }
            }),
            final(self).handle == old(self).handle,
            final(self).pending == old(self).pending,
            final(self).fin_sent == old(self).fin_sent,
    {
        let ghost set = sockets_view(*sockets);
        let s = sockets_tcp(sockets, self.handle);
        let connected = if self.resp.is_some() && tcp_may_send(s) {
            self.resp.take()
        } else {
            None
        };
        assert(set.tcp.insert(self.handle, set.tcp[self.handle]) =~= set.tcp);
        connected
    }

    /// One turn of a connection, with what the application sent since the last turn,
    /// whether it will send no more, and how many pieces it has room for. The bytes of
    /// the application go to the socket as far as that takes them; after the last of
    /// them the transmit half is closed; what the socket received goes to the
    /// application as far as that has room, and the rest stays in the socket. The
    /// connection goes on unless the socket is closed and holds nothing more.
    pub fn pump(
        &mut self,
        sockets: &mut SocketSet<'static>,
        from_app: VecDeque<Vec<u8>>,
        app_closed: bool,
        room: usize,
    ) -> (out: Pumped)
        requires
            sockets_view(*old(sockets)).tcp.contains_key(old(self).handle),
        ensures
            ({
                let set = sockets_view(*old(sockets));
                let v = set.tcp[old(self).handle];
                &&& sockets_view(*final(sockets)) == (SocketsView {
                    tcp: set.tcp.insert(
                        old(self).handle,
                        old(self).turn_socket(v, from_app, app_closed, room),
                    ),
                    ..set
                })
                &&& old(self).turn_leaves(v, from_app, app_closed, *final(self))
                &&& old(self).turn_gives(v, from_app, app_closed, room, out)
            }),
            ({
                let v = sockets_view(*old(sockets)).tcp[old(self).handle];
                let v2 = sockets_view(*final(sockets)).tcp[old(self).handle];
                let space = if v.unsent.len() <= v.send_capacity {
                    v.send_capacity - v.unsent.len()
                } else {
                    0
                };
                let held = packets(old(self).pending).flatten() + packets(from_app).flatten();
                let sends = v.state == TcpState::Established || v.state == TcpState::CloseWait;
                let closes = app_closed && old(self).resp is None && !old(self).fin_sent
                    && final(self).pending@.len() == 0;
                &&& final(self).handle == old(self).handle
                &&& final(self).resp == old(self).resp
                &&& v2.unsent + packets(final(self).pending).flatten() == v.unsent + held
                &&& v2.unsent.len() == v.unsent.len() + (if !sends {
                    0
                } else if held.len() <= space {
                    held.len() as int
                } else {
                    space
                })
                &&& sends && held.len() < space ==> final(self).pending@.len() == 0
                &&& final(self).fin_sent == (old(self).fin_sent || closes)
                &&& v2.state == (if !closes {
                    v.state
                } else if v.state == TcpState::Established || v.state == TcpState::SynReceived {
                    TcpState::FinWait1
                } else if v.state == TcpState::CloseWait {
                    TcpState::LastAck
                } else if v.state == TcpState::Listen || v.state == TcpState::SynSent {
                    TcpState::Closed
                } else {
                    v.state
                })
                &&& messages(out.to_app).flatten() + v2.received == v.received
                &&& out.to_app@.len() <= room
                &&& forall|i: int|
                    0 <= i < out.to_app@.len() ==> 0 < (#[trigger] out.to_app@[i])@.len() <= 32768 && (i + 1
                        < out.to_app@.len() ==> out.to_app@[i]@.len() == 32768)
                &&& v2.received.len() > 0 ==> out.to_app@.len() == room && messages(
                    out.to_app,
                ).flatten().len() == room * 32768
                &&& v2.ends == v.ends
                &&& v2.send_capacity == v.send_capacity
                &&& v2.recv_capacity == v.recv_capacity
                &&& out.keep == !(v2.state == TcpState::Closed && v2.received.len() == 0)
            }),
    {
        let ghost before = *self;
        let s = sockets_tcp(sockets, self.handle);
        let ghost v = tcp_view(*s);
        let ghost queued = self.queued(from_app);
        let mut pieces = from_app;
        self.pending.append(&mut pieces);
        assert(packets(self.pending) =~= queued);
        push_pending(s, &mut self.pending);
        if !self.fin_sent && self.pending.len() == 0 && app_closed && self.resp.is_none() {
            tcp_close(s);
            self.fin_sent = true;
        }
        let to_app = pull_received(s, room);
        let state = tcp_state(s);
        let more = tcp_can_recv(s);
        assert(v.unsent + Seq::<u8>::empty() =~= v.unsent);
        let out = Pumped { to_app, keep: state != TcpState::Closed || more };
        proof {
            let v2 = before.turn_socket(v, from_app, app_closed, room);
            let app = FromApp { pieces: from_app, closed: app_closed, room };
            law_turn_exact(before, v, app, v2, out, *self);
        }
        out
    }

    /// What a turn makes of the connection.
    pub open spec fn turn_leaves(
        self,
        v: TcpView,
        from_app: VecDeque<Vec<u8>>,
        app_closed: bool,
        after: Conn<R>,
    ) -> bool {
        &&& after.handle == self.handle
        &&& after.resp == self.resp
        &&& packets(after.pending) == self.turn_taken(v, from_app).1
        &&& after.fin_sent == (self.fin_sent || self.turn_closes(v, from_app, app_closed))
    }

    /// What comes of a turn for the application.
    pub open spec fn turn_gives(
        self,
        v: TcpView,
        from_app: VecDeque<Vec<u8>>,
        app_closed: bool,
        room: usize,
        out: Pumped,
    ) -> bool {
        let v2 = self.turn_socket(v, from_app, app_closed, room);
        &&& messages(out.to_app) == given(v.received, room as nat)
        &&& out.keep == (v2.state != TcpState::Closed || v2.received.len() > 0)
    }
}

/// What the application of one connection sent since the last turn, whether it will send
/// no more, and how many pieces of received bytes it has room for.
pub struct FromApp {
    pub pieces: VecDeque<Vec<u8>>,
    pub closed: bool,
    pub room: usize,
}

impl FromApp {
    /// What a turn with this input makes of a connection `c` with the socket `v`: the
    /// socket `v2`, and `out` for the application.
    pub open spec fn serves<R>(self, c: Conn<R>, v: TcpView, v2: TcpView, out: Pumped) -> bool {
        &&& v2 == c.turn_socket(v, self.pieces, self.closed, self.room)
        &&& c.turn_gives(v, self.pieces, self.closed, self.room, out)
    }

    /// What a turn with this input leaves of a connection `c` with the socket `v`.
    pub open spec fn leaves<R>(self, c: Conn<R>, v: TcpView, after: Conn<R>) -> bool {
        c.turn_leaves(v, self.pieces, self.closed, after)
    }
}

/// Whether every connection has a socket of its own.
pub open spec fn are_valid<R>(conns: Seq<Conn<R>>, set: SocketsView) -> bool {
    &&& forall|i: int| 0 <= i < conns.len() ==> set.tcp.contains_key(#[trigger] conns[i].handle)
    &&& forall|i: int, j: int|
        0 <= i < j < conns.len() ==> #[trigger] conns[i].handle != #[trigger] conns[j].handle
}

/// How many of the first `n` connections go on after a turn.
pub open spec fn going_on(out: Seq<Pumped>, n: int) -> nat
    decreases n,
{
    if n <= 0 {
        0
    } else {
        going_on(out, n - 1) + (if out[n - 1].keep {
            1nat
        } else {
            0nat
        })
    }
}

/// Whom to tell of each connection that it is established, in the order of the
/// connections.
pub fn take_all_connected<R>(sockets: &mut SocketSet<'static>, conns: &mut Vec<Conn<R>>) -> (out:
    Vec<Option<R>>)
    requires
        are_valid(old(conns)@, sockets_view(*old(sockets))),
    ensures
        are_valid(final(conns)@, sockets_view(*final(sockets))),
        sockets_view(*final(sockets)) == sockets_view(*old(sockets)),
        final(conns)@.len() == old(conns)@.len(),
        out@.len() == old(conns)@.len(),
        forall|i: int|
            #![trigger final(conns)@[i]]
            #![trigger out@[i]]
            0 <= i < old(conns)@.len() ==> {
                let c = old(conns)@[i];
                if c.is_news(sockets_view(*old(sockets)).tcp[c.handle]) {
                    out@[i] == c.resp && final(conns)@[i] == (Conn { resp: None, ..c })
                } else {
                    out@[i] is None && final(conns)@[i] == c
                }
            },
{
    let ghost set = sockets_view(*sockets);
    let ghost before = conns@;
    let mut out: Vec<Option<R>> = Vec::new();
    let mut i: usize = 0;
    while i < conns.len()
        invariant
            set == sockets_view(*old(sockets)),
            before == old(conns)@,
            sockets_view(*sockets) == set,
            are_valid(before, set),
            are_valid(conns@, set),
            i <= conns@.len(),
            conns@.len() == before.len(),
            out@.len() == i,
            forall|k: int| i <= k < before.len() ==> #[trigger] conns@[k] == before[k],
            forall|k: int|
                #![trigger conns@[k]]
                #![trigger out@[k]]
                0 <= k < i ==> {
                    let c = before[k];
                    if c.is_news(set.tcp[c.handle]) {
                        out@[k] == c.resp && conns@[k] == (Conn { resp: None, ..c })
                    } else {
                        out@[k] is None && conns@[k] == c
                    }
                },
        decreases before.len() - i,
    {
        let ghost now = conns@;
        let c = &mut conns[i];
        assert(*c == before[i as int]);
        let connected = c.take_connected(sockets);
        out.push(connected);
        assert forall|k: int| 0 <= k < conns@.len() implies #[trigger] conns@[k].handle
            == before[k].handle by {
            if k != i {
                assert(conns@[k] == now[k]);
            }
        }
        assert(are_valid(conns@, set)) by {
            assert forall|a: int, b: int| 0 <= a < b < conns@.len() implies #[trigger] conns@[a].handle
                != #[trigger] conns@[b].handle by {
                assert(before[a].handle != before[b].handle);
            }
        }
        i = i + 1;
    }
    out
}

/// One turn of every connection, with what the applications sent. Each connection has
/// its turn with its own socket, and those whose sockets are closed and hold nothing more
/// leave the list, which keeps its order.
pub fn pump<R>(
    sockets: &mut SocketSet<'static>,
    conns: &mut Vec<Conn<R>>,
    from_app: VecDeque<FromApp>,
) -> (out: Vec<Pumped>)
    requires
        are_valid(old(conns)@, sockets_view(*old(sockets))),
        from_app@.len() == old(conns)@.len(),
    ensures
        are_valid(final(conns)@, sockets_view(*final(sockets))),
        out@.len() == old(conns)@.len(),
        final(conns)@.len() == going_on(out@, out@.len() as int),
        forall|i: int|
            0 <= i < old(conns)@.len() ==> from_app@[i].serves(
                old(conns)@[i],
                sockets_view(*old(sockets)).tcp[old(conns)@[i].handle],
                sockets_view(*final(sockets)).tcp[old(conns)@[i].handle],
                #[trigger] out@[i],
            ),
        forall|i: int|
            0 <= i < old(conns)@.len() && #[trigger] out@[i].keep ==> from_app@[i].leaves(
                old(conns)@[i],
                sockets_view(*old(sockets)).tcp[old(conns)@[i].handle],
                final(conns)@[going_on(out@, i) as int],
            ),
        forall|handle: SocketHandle|
            (forall|i: int| 0 <= i < old(conns)@.len() ==> old(conns)@[i].handle != handle)
                ==> #[trigger] sockets_view(*final(sockets)).tcp[handle] == sockets_view(
                *old(sockets),
            ).tcp[handle],
        sockets_view(*final(sockets)).tcp.dom() == sockets_view(*old(sockets)).tcp.dom(),
        sockets_view(*final(sockets)).udp == sockets_view(*old(sockets)).udp,
        sockets_view(*final(sockets)).growable == sockets_view(*old(sockets)).growable,
{
    let ghost set = sockets_view(*sockets);
    let ghost before = conns@;
    let ghost inputs = from_app@;
    let mut left = from_app;
    let mut out: Vec<Pumped> = Vec::new();
    let mut i: usize = 0;
    assert(inputs.skip(0) =~= inputs);
    while i < conns.len()
        invariant
            so_far(set, sockets_view(*sockets), before, inputs, conns@, out@),
            i == going_on(out@, out@.len() as int),
            left@ == inputs.skip(out@.len() as int),
        decreases before.len() - out@.len(),
    {
        let ghost set1 = sockets_view(*sockets);
        let ghost now = conns@;
        let ghost out1 = out@;
        let ghost n = out@.len() as int;
        if let Some(app) = left.pop_front() {
            assert(app == inputs[n]);
            assert(left@ =~= inputs.skip(n + 1));
            assert(now[i as int] == before[n]);
            assert(set.tcp.contains_key(before[n].handle));
            let c = &mut conns[i];
            let pumped = c.pump(sockets, app.pieces, app.closed, app.room);
            let ghost after = conns@[i as int];
            let keep = pumped.keep;
            out.push(pumped);
            if keep {
                i = i + 1;
                assert(conns@ =~= now.update(going_on(out1, n) as int, after));
            } else {
                let _ = conns.remove(i);
                assert(conns@ =~= now.remove(going_on(out1, n) as int));
            }
            proof {
                lemma_turn(
                    set,
                    set1,
                    sockets_view(*sockets),
                    before,
                    inputs,
                    now,
                    after,
                    conns@,
                    out1,
                    pumped,
                );
            }
        }
    }
    proof {
        lemma_still_valid(before, conns@, out@, set, sockets_view(*sockets));
    }
    out
}

/// What holds after some of the connections had their turn: `conns` are those that go
/// on, followed by those that wait for their turn.
spec fn so_far<R>(
    set: SocketsView,
    now: SocketsView,
    before: Seq<Conn<R>>,
    inputs: Seq<FromApp>,
    conns: Seq<Conn<R>>,
    out: Seq<Pumped>,
) -> bool {
    let done = out.len() as int;
    let i = going_on(out, done);
    &&& are_valid(before, set)
    &&& inputs.len() == before.len()
    &&& done <= before.len()
    &&& conns.len() == i + (before.len() - done)
    &&& forall|k: int| i <= k < conns.len() ==> #[trigger] conns[k] == before[k - i + done]
    &&& forall|k: int|
        done <= k < before.len() ==> now.tcp[#[trigger] before[k].handle]
            == set.tcp[before[k].handle]
    &&& forall|k: int|
        0 <= k < done ==> inputs[k].serves(
            before[k],
            set.tcp[before[k].handle],
            now.tcp[before[k].handle],
            #[trigger] out[k],
        )
    &&& forall|k: int|
        0 <= k < done && #[trigger] out[k].keep ==> inputs[k].leaves(
            before[k],
            set.tcp[before[k].handle],
            conns[going_on(out, k) as int],
        )
    &&& forall|handle: SocketHandle|
        (forall|k: int| 0 <= k < before.len() ==> before[k].handle != handle)
            ==> #[trigger] now.tcp[handle] == set.tcp[handle]
    &&& now.tcp.dom() == set.tcp.dom()
    &&& now.udp == set.udp
    &&& now.growable == set.growable
}

/// One more connection has its turn.
proof fn lemma_turn<R>(
    set: SocketsView,
    set1: SocketsView,
    set2: SocketsView,
    before: Seq<Conn<R>>,
    inputs: Seq<FromApp>,
    conns: Seq<Conn<R>>,
    after: Conn<R>,
    conns2: Seq<Conn<R>>,
    out: Seq<Pumped>,
    pumped: Pumped,
)
    requires
        so_far(set, set1, before, inputs, conns, out),
        out.len() < before.len(),
        ({
            let n = out.len() as int;
            let i = going_on(out, n) as int;
            let c = before[n];
            let app = inputs[n];
            let v = set1.tcp[c.handle];
            &&& set2 == (SocketsView {
                tcp: set1.tcp.insert(
                    c.handle,
                    c.turn_socket(v, app.pieces, app.closed, app.room),
                ),
                ..set1
            })
            &&& c.turn_gives(v, app.pieces, app.closed, app.room, pumped)
            &&& c.turn_leaves(v, app.pieces, app.closed, after)
            &&& conns2 == (if pumped.keep {
                conns.update(i, after)
            } else {
                conns.remove(i)
            })
        }),
    ensures
        so_far(set, set2, before, inputs, conns2, out.push(pumped)),
{
    let n = out.len() as int;
    let i = going_on(out, n) as int;
    let out2 = out.push(pumped);
    let i2 = going_on(out2, n + 1);
    lemma_going_on_prefix(out, out2, n);
    assert(set.tcp.contains_key(before[n].handle));
    assert(set2.tcp.dom() =~= set.tcp.dom());
    assert forall|k: int| i2 <= k < conns2.len() implies #[trigger] conns2[k] == before[k - i2 + n
        + 1] by {
        if pumped.keep {
            assert(conns2[k] == conns[k]);
        } else {
            assert(conns2[k] == conns[k + 1]);
        }
    }
    assert forall|k: int| n + 1 <= k < before.len() implies set2.tcp[#[trigger] before[k].handle]
        == set.tcp[before[k].handle] by {
        assert(before[n].handle != before[k].handle);
    }
    assert forall|k: int| 0 <= k < n + 1 implies inputs[k].serves(
        before[k],
        set.tcp[before[k].handle],
        set2.tcp[before[k].handle],
        #[trigger] out2[k],
    ) by {
        if k < n {
            assert(out2[k] == out[k]);
            assert(before[k].handle != before[n].handle);
        }
    }
    assert forall|k: int| 0 <= k < n + 1 && #[trigger] out2[k].keep implies inputs[k].leaves(
        before[k],
        set.tcp[before[k].handle],
        conns2[going_on(out2, k) as int],
    ) by {
        lemma_going_on_prefix(out, out2, k);
        if k < n {
            assert(out2[k] == out[k]);
            assert(out[k].keep);
            lemma_going_on_grows(out, k + 1, n);
            let at = going_on(out, k) as int;
            assert(at < i);
            assert(conns2[at] == conns[at]);
        }
    }
    assert forall|handle: SocketHandle|
        (forall|k: int| 0 <= k < before.len() ==> before[k].handle != handle) implies #[trigger] set2.tcp[handle]
        == set.tcp[handle] by {
        assert(before[n].handle != handle);
        assert(set1.tcp[handle] == set.tcp[handle]);
    }
}

proof fn lemma_going_on_prefix(a: Seq<Pumped>, b: Seq<Pumped>, n: int)
    requires
        n <= a.len() <= b.len(),
        forall|k: int| 0 <= k < a.len() ==> a[k] == b[k],
    ensures
        going_on(a, n) == going_on(b, n),
    decreases n,
{
    if n > 0 {
        lemma_going_on_prefix(a, b, n - 1);
    }
}

/// The further along, the more connections go on.
proof fn lemma_going_on_grows(out: Seq<Pumped>, m: int, n: int)
    requires
        0 <= m <= n,
    ensures
        going_on(out, m) <= going_on(out, n),
    decreases n,
{
    if m < n {
        lemma_going_on_grows(out, m, n - 1);
    }
}

/// The place `k` of the list after a turn belongs to one of the connections before it.
proof fn lemma_origin(out: Seq<Pumped>, n: int, k: int) -> (j: int)
    requires
        0 <= n <= out.len(),
        0 <= k < going_on(out, n),
    ensures
        0 <= j < n,
        out[j].keep,
        going_on(out, j) == k,
    decreases n,
{
    if k < going_on(out, n - 1) {
        lemma_origin(out, n - 1, k)
    } else {
        n - 1
    }
}

/// The connections that go on have the sockets that they had.
proof fn lemma_still_valid<R>(
    before: Seq<Conn<R>>,
    after: Seq<Conn<R>>,
    out: Seq<Pumped>,
    set: SocketsView,
    set2: SocketsView,
)
    requires
        are_valid(before, set),
        set2.tcp.dom() == set.tcp.dom(),
        out.len() == before.len(),
        after.len() == going_on(out, out.len() as int),
        forall|k: int|
            0 <= k < out.len() && #[trigger] out[k].keep ==> after[going_on(out, k) as int].handle
                == before[k].handle,
    ensures
        are_valid(after, set2),
{
    let n = out.len() as int;
    assert forall|a: int| 0 <= a < after.len() implies set2.tcp.contains_key(
        #[trigger] after[a].handle,
    ) by {
        let j = lemma_origin(out, n, a);
        assert(after[a].handle == before[j].handle);
    }
    assert forall|a: int, b: int| 0 <= a < b < after.len() implies #[trigger] after[a].handle
        != #[trigger] after[b].handle by {
        let j = lemma_origin(out, n, a);
        let k = lemma_origin(out, n, b);
        assert(after[a].handle == before[j].handle);
        assert(after[b].handle == before[k].handle);
        if k < j {
            lemma_going_on_grows(out, k, j);
        }
    }
}

/// The first local port that connections use, and how many they go round.
pub const FIRST_PORT: u16 = 20000;

pub const PORTS: u16 = 40000;

/// Gives out the local ports of connections.
pub struct Dialer {
    pub next_port: u16,
}

/// The counter of a [`Dialer`] after `n` more connections.
pub open spec fn counter_after(next_port: u16, n: nat) -> int {
    (next_port + n) % 65536
}

/// The local port that goes with a value of the counter.
pub open spec fn port_of(counter: int) -> int {
    FIRST_PORT + counter % (PORTS as int)
}

impl Dialer {
    pub fn new() -> (dialer: Self)
        ensures
            dialer.next_port == 0,
    {
        Dialer { next_port: 0 }
    }

    /// The local port for the next connection.
    pub fn next_local_port(&mut self) -> (port: u16)
        ensures
            final(self).next_port == counter_after(old(self).next_port, 1),
            port == port_of(counter_after(old(self).next_port, 1)),
            final(self).next_port == (old(self).next_port + 1) % 65536,
            port == 20000 + (old(self).next_port + 1) % 65536 % 40000,
    {
        self.next_port = self.next_port.wrapping_add(1);
        FIRST_PORT.wrapping_add(self.next_port % PORTS)
    }

    /// Asks the stack for a connection to `ip:port`. What the application is to be
    /// told of it later goes with the connection. Where the stack refuses, it comes
    /// back with the reason, and no socket remains.
    pub fn dial<R>(
        &mut self,
        iface: &mut Interface,
        sockets: &mut SocketSet<'static>,
        ip: Ipv4,
        port: u16,
        resp: R,
    ) -> (r: Result<Conn<R>, (R, ConnectFault)>)
        requires
            sockets_view(*old(sockets)).growable,
        ensures
            final(self).next_port == counter_after(old(self).next_port, 1),
            interface_view(*final(iface)) == interface_view(*old(iface)),
            r is Ok <==> port != 0 && !ip.spec_is_unspecified() && interface_view(*old(iface)).ipv4.len()
                > 0,
            match r {
                Ok(conn) => {
                    &&& !sockets_view(*old(sockets)).has(conn.handle)
                    &&& packets(conn.pending) == Seq::<Seq<u8>>::empty()
                    &&& conn.resp == Some(resp)
                    &&& !conn.fin_sent
                    &&& sockets_view(*final(sockets)) == (SocketsView {
                        tcp: sockets_view(*old(sockets)).tcp.insert(
                            conn.handle,
                            TcpView {
                                state: TcpState::SynSent,
                                ends: Some(
                                    (
                                        Endpoint {
                                            ip: interface_view(*old(iface)).ipv4[0].0,
                                            port: final(self).local_port(),
                                        },
                                        Endpoint { ip, port },
                                    ),
                                ),
                                unsent: Seq::empty(),
                                received: Seq::empty(),
                                send_capacity: SOCKET_BUFFER as nat,
                                recv_capacity: SOCKET_BUFFER as nat,
                            },
                        ),
                        ..sockets_view(*old(sockets))
                    })
                },
                Err((back, fault)) => {
                    &&& back == resp
                    &&& fault == ConnectFault::Unaddressable
                    &&& sockets_view(*final(sockets)) == sockets_view(*old(sockets))
                },
            },
            r matches Ok(conn) ==> ({
                let v = sockets_view(*final(sockets)).tcp[conn.handle];
                &&& conn.pending@.len() == 0
                &&& v.state == TcpState::SynSent
                &&& v.unsent.len() == 0 && v.received.len() == 0
                &&& v.send_capacity == 131072 && v.recv_capacity == 131072
                &&& v.ends matches Some((local, remote)) && remote == (Endpoint { ip, port })
                    && local.ip == interface_view(*old(iface)).ipv4[0].0 && local.port == 20000 + (
                old(self).next_port + 1) % 65536 % 40000
            }),
    {
        let sock = tcp_new(SOCKET_BUFFER, SOCKET_BUFFER);
        let local_port = self.next_local_port();
        let handle = sockets_add_tcp(sockets, sock);
        let s = sockets_tcp(sockets, handle);
        match tcp_connect(s, iface, ip, port, local_port) {
            Ok(()) => {
                proof {
                    let tcp = sockets_view(*old(sockets)).tcp;
                    assert(sockets_view(*sockets).tcp =~= tcp.insert(
                        handle,
                        sockets_view(*sockets).tcp[handle],
                    ));
                }
                let pending: VecDeque<Vec<u8>> = VecDeque::new();
                assert(packets(pending) =~= Seq::empty());
                Ok(Conn { handle, pending, resp: Some(resp), fin_sent: false })
            },
            Err(fault) => {
                sockets_remove(sockets, handle);
                assert(sockets_view(*sockets).tcp =~= sockets_view(*old(sockets)).tcp);
                assert(sockets_view(*sockets).udp =~= sockets_view(*old(sockets)).udp);
                Err((resp, fault))
            },
        }
    }

    /// The local port of the last connection.
    pub open spec fn local_port(self) -> u16 {
        port_of(self.next_port as int) as u16
    }
}

/// Counters that are `d` connections apart differ by `d`, or by the rest of the round.
proof fn lemma_counters(next_port: u16, i: nat, d: nat)
    requires
        d < 65536,
    ensures
        0 <= counter_after(next_port, i) < 65536,
        counter_after(next_port, i + d) == counter_after(next_port, i) + d || counter_after(
            next_port,
            i + d,
        ) == counter_after(next_port, i) + d - 65536,
{
    let x = next_port + i;
    vstd::arithmetic::div_mod::lemma_fundamental_div_mod(x, 65536);
    vstd::arithmetic::div_mod::lemma_fundamental_div_mod(x + d, 65536);
}

/// Counters share a local port exactly where they are the same or 40000 apart.
proof fn lemma_ports(a: int, b: int)
    requires
        0 <= a < b < 65536,
    ensures
        20000 <= port_of(a) < 60000,
        20000 <= port_of(b) < 60000,
        port_of(a) == port_of(b) <==> b - a == 40000,
{
    assert(a % 40000 == (if a < 40000 {
        a
    } else {
        a - 40000
    }));
    assert(b % 40000 == (if b < 40000 {
        b
    } else {
        b - 40000
    }));
}

/// Connections that are fewer than 25536 apart never share a local port, and every
/// local port is in `20000..60000`.
pub proof fn law_local_ports_distinct(next_port: u16, i: nat, j: nat)
    requires
        i < j < i + 25536,
    ensures
        20000 <= port_of(counter_after(next_port, i)) < 60000,
        port_of(counter_after(next_port, i)) != port_of(counter_after(next_port, j)),
{
    let d = (j - i) as nat;
    lemma_counters(next_port, i, d);
    lemma_counters(next_port, j, 0);
    let a = counter_after(next_port, i);
    let b = counter_after(next_port, j);
    if a < b {
        lemma_ports(a, b);
    } else {
        lemma_ports(b, a);
    }
}

/// The first 40000 connections of a dialer all have different local ports.
pub proof fn law_first_ports_distinct(i: nat, j: nat)
    requires
        1 <= i < j <= 40000,
    ensures
        port_of(counter_after(0, i)) != port_of(counter_after(0, j)),
{
    lemma_ports(i as int, j as int);
}

/// A socket takes bytes in order and leaves the rest in order, and takes as many as
/// it has room for.
pub proof fn law_taken_keeps_bytes(pieces: Seq<Seq<u8>>, room: nat)
    ensures
        taken(pieces, room).0 + taken(pieces, room).1.flatten() == pieces.flatten(),
        taken(pieces, room).0.len() == (if pieces.flatten().len() <= room {
            pieces.flatten().len()
        } else {
            room
        }),
    decreases pieces.len(),
{
    let (bytes, rest) = taken(pieces, room);
    if pieces.len() == 0 || room == 0 {
        assert(bytes + rest.flatten() =~= pieces.flatten());
    } else if pieces[0].len() <= room {
        let (more, _) = taken(pieces.drop_first(), (room - pieces[0].len()) as nat);
        law_taken_keeps_bytes(pieces.drop_first(), (room - pieces[0].len()) as nat);
        assert((pieces[0] + more) + rest.flatten() =~= pieces[0] + (more + rest.flatten()));
    } else {
        assert(rest.drop_first() =~= pieces.drop_first());
        assert(rest[0] == pieces[0].skip(room as int));
        assert(bytes + (rest[0] + pieces.drop_first().flatten()) =~= pieces[0]
            + pieces.drop_first().flatten());
    }
}

/// Cutting received bytes into pieces loses and reorders none of them, and no piece
/// is empty or longer than asked for, or shorter but for the last.
pub proof fn law_pieces_keep_bytes(bytes: Seq<u8>, size: nat)
    requires
        size > 0,
    ensures
        pieces_of(bytes, size).flatten() == bytes,
        forall|i: int|
            0 <= i < pieces_of(bytes, size).len() ==> 0 < #[trigger] pieces_of(bytes, size)[i].len()
                <= size,
        forall|i: int|
            0 <= i < pieces_of(bytes, size).len() - 1 ==> #[trigger] pieces_of(bytes, size)[i].len()
                == size,
    decreases bytes.len(),
{
    let pieces = pieces_of(bytes, size);
    if bytes.len() == 0 {
        assert(pieces.flatten() =~= bytes);
    } else if bytes.len() <= size {
        assert(pieces.drop_first() =~= Seq::empty());
        assert(pieces.drop_first().flatten() =~= Seq::empty());
        assert(pieces.flatten() =~= bytes);
    } else {
        law_pieces_keep_bytes(bytes.skip(size as int), size);
        let rest = pieces_of(bytes.skip(size as int), size);
        assert(pieces.drop_first() =~= rest);
        assert(pieces.flatten() =~= bytes.take(size as int) + bytes.skip(size as int));
        assert(bytes.take(size as int) + bytes.skip(size as int) =~= bytes);
        assert forall|i: int| 0 <= i < pieces.len() implies 0 < #[trigger] pieces[i].len() <= size by {
            if i > 0 {
                assert(pieces[i] == rest[i - 1]);
            }
        }
        assert forall|i: int| 0 <= i < pieces.len() - 1 implies #[trigger] pieces[i].len() == size by {
            if i > 0 {
                assert(pieces[i] == rest[i - 1]);
            }
        }
    }
}

/// What a turn gives the application, followed by what it leaves in the socket, is what
/// the socket had received: no byte is lost or reordered, whatever room the application
/// has. It is given no more pieces than it has room for, none of them empty or too long,
/// and as many bytes as fit into them.
pub proof fn law_turn_keeps_received<R>(
    conn: Conn<R>,
    v: TcpView,
    from_app: VecDeque<Vec<u8>>,
    app_closed: bool,
    room: usize,
    out: Pumped,
)
    requires
        conn.turn_gives(v, from_app, app_closed, room, out),
    ensures
        messages(out.to_app).flatten() + conn.turn_socket(v, from_app, app_closed, room).received
            == v.received,
        out.to_app@.len() <= room,
        forall|i: int|
            0 <= i < out.to_app@.len() ==> 0 < #[trigger] messages(out.to_app)[i].len() <= CHUNK,
        messages(out.to_app).flatten().len() == given_len(v.received.len(), room as nat),
        v.received.len() > 0 && room > 0 ==> out.to_app@.len() > 0,
{
    let g = given_len(v.received.len(), room as nat) as int;
    let bytes = v.received.take(g);
    law_pieces_keep_bytes(bytes, CHUNK as nat);
    lemma_piece_count(bytes, room as nat);
    assert(messages(out.to_app).len() == out.to_app@.len());
    assert(bytes + v.received.skip(g) =~= v.received);
}

/// Bytes that fit into `room` pieces are cut into no more than that.
proof fn lemma_piece_count(bytes: Seq<u8>, room: nat)
    requires
        bytes.len() <= room * CHUNK,
    ensures
        pieces_of(bytes, CHUNK as nat).len() <= room,
    decreases bytes.len(),
{
    if bytes.len() > CHUNK {
        lemma_piece_count(bytes.skip(CHUNK as int), (room - 1) as nat);
    }
}

/// No turn of a connection loses or reorders a byte of the application: what the
/// socket and the connection hold afterwards is what they held before, followed by
/// what the application sent.
pub proof fn law_turn_keeps_bytes<R>(
    conn: Conn<R>,
    v: TcpView,
    from_app: VecDeque<Vec<u8>>,
    app_closed: bool,
    room: usize,
)
    ensures
        conn.turn_socket(v, from_app, app_closed, room).unsent + conn.turn_taken(v, from_app).1.flatten()
            == v.unsent + packets(conn.pending).flatten() + packets(from_app).flatten(),
{
    let (bytes, rest) = conn.turn_taken(v, from_app);
    let queued = conn.queued(from_app);
    if v.state.may_send() {
        law_taken_keeps_bytes(queued, v.room());
    }
    assert(bytes + rest.flatten() =~= queued.flatten());
    lemma_flatten_concat(packets(conn.pending), packets(from_app));
    assert((v.unsent + bytes) + rest.flatten() =~= v.unsent + (bytes + rest.flatten()));
    assert(v.unsent + (packets(conn.pending).flatten() + packets(from_app).flatten()) =~= v.unsent
        + packets(conn.pending).flatten() + packets(from_app).flatten());
}

/// The transmit half is closed only once the socket holds every byte that the
/// application sent.
pub proof fn law_close_after_last_byte<R>(
    conn: Conn<R>,
    v: TcpView,
    from_app: VecDeque<Vec<u8>>,
    app_closed: bool,
    room: usize,
)
    requires
        conn.turn_closes(v, from_app, app_closed),
    ensures
        conn.turn_socket(v, from_app, app_closed, room).unsent == v.unsent + packets(
            conn.pending,
        ).flatten() + packets(from_app).flatten(),
{
    law_turn_keeps_bytes(conn, v, from_app, app_closed, room);
    let rest = conn.turn_taken(v, from_app).1;
    assert(rest.flatten() =~= Seq::empty());
    let unsent = conn.turn_socket(v, from_app, app_closed, room).unsent;
    assert(unsent + rest.flatten() =~= unsent);
}

/// The bytes that a socket takes over several turns of a connection, in order.
pub open spec fn taken_in_turns<R>(
    conns: Seq<Conn<R>>,
    views: Seq<TcpView>,
    inputs: Seq<FromApp>,
) -> Seq<u8>
    decreases inputs.len(),
{
    if inputs.len() == 0 {
        Seq::empty()
    } else {
        let n = inputs.len() - 1;
        taken_in_turns(conns.drop_last(), views.drop_last(), inputs.drop_last())
            + conns[n].turn_taken(views[n], inputs[n].pieces).0
    }
}

/// The bytes that an application sent over several turns, in order.
pub open spec fn sent_in_turns(inputs: Seq<FromApp>) -> Seq<u8>
    decreases inputs.len(),
{
    if inputs.len() == 0 {
        Seq::empty()
    } else {
        sent_in_turns(inputs.drop_last()) + packets(inputs.last().pieces).flatten()
    }
}

/// Whether a connection goes through several turns, with these sockets and inputs.
pub open spec fn are_turns<R>(
    conns: Seq<Conn<R>>,
    views: Seq<TcpView>,
    inputs: Seq<FromApp>,
) -> bool {
    &&& conns.len() == inputs.len() + 1
    &&& views.len() == inputs.len()
    &&& forall|i: int|
        0 <= i < inputs.len() ==> (#[trigger] inputs[i]).leaves(conns[i], views[i], conns[i + 1])
}

/// However the turns fall and whatever the state of the socket in each, it is handed what
/// the application sent, in order and without a gap: what it took so far, followed by what
/// the connection still holds, is what the connection held at first, followed by all that
/// the application sent.
pub proof fn law_turns_keep_bytes<R>(
    conns: Seq<Conn<R>>,
    views: Seq<TcpView>,
    inputs: Seq<FromApp>,
)
    requires
        are_turns(conns, views, inputs),
    ensures
        taken_in_turns(conns, views, inputs) + packets(conns.last().pending).flatten() == packets(
            conns[0].pending,
        ).flatten() + sent_in_turns(inputs),
    decreases inputs.len(),
{
    if inputs.len() == 0 {
        let held = packets(conns[0].pending).flatten();
        assert(Seq::<u8>::empty() + held =~= held + Seq::<u8>::empty());
    } else {
        let n = inputs.len() - 1;
        let (c, v, app) = (conns[n], views[n], inputs[n]);
        assert forall|i: int| 0 <= i < n implies (#[trigger] inputs.drop_last()[i]).leaves(
            conns.drop_last()[i],
            views.drop_last()[i],
            conns.drop_last()[i + 1],
        ) by {
            assert(inputs[i].leaves(conns[i], views[i], conns[i + 1]));
        }
        law_turns_keep_bytes(conns.drop_last(), views.drop_last(), inputs.drop_last());
        assert(app.leaves(c, v, conns[n + 1]));
        law_turn_keeps_bytes(c, v, app.pieces, app.closed, app.room);
        let before = taken_in_turns(conns.drop_last(), views.drop_last(), inputs.drop_last());
        let (now, rest) = c.turn_taken(v, app.pieces);
        let held = packets(c.pending).flatten();
        let new = packets(app.pieces).flatten();
        assert(now + rest.flatten() =~= held + new) by {
            let unsent = v.unsent;
            assert((unsent + now) + rest.flatten() == unsent + held + new);
            assert(((unsent + now) + rest.flatten()).skip(unsent.len() as int) =~= now
                + rest.flatten());
            assert((unsent + held + new).skip(unsent.len() as int) =~= held + new);
        }
        assert((before + now) + rest.flatten() =~= before + (now + rest.flatten()));
        assert(before + (held + new) =~= (before + held) + new);
        let first = packets(conns[0].pending).flatten();
        assert((first + sent_in_turns(inputs.drop_last())) + new =~= first + (sent_in_turns(
            inputs.drop_last(),
        ) + new));
    }
}

/// The transmit half of a connection is closed in at most one of its turns.
pub proof fn law_closed_once<R>(
    conns: Seq<Conn<R>>,
    views: Seq<TcpView>,
    inputs: Seq<FromApp>,
    i: int,
    j: int,
)
    requires
        are_turns(conns, views, inputs),
        0 <= i < j < inputs.len(),
        conns[i].turn_closes(views[i], inputs[i].pieces, inputs[i].closed),
    ensures
        !conns[j].turn_closes(views[j], inputs[j].pieces, inputs[j].closed),
        conns[j].fin_sent,
    decreases j,
{
    assert(inputs[j - 1].leaves(conns[j - 1], views[j - 1], conns[j]));
    if i < j - 1 {
        law_closed_once(conns, views, inputs, i, j - 1);
    }
}

/// The pieces that a socket leaves are the last of those that it was offered, and only the
/// first of them may be cut, at its front. With more room than there are bytes, or with
/// enough and no empty piece, it leaves none.
pub proof fn law_taken_leaves_tail(pieces: Seq<Seq<u8>>, room: nat)
    ensures
        ({
            let rest = taken(pieces, room).1;
            let d = pieces.len() - rest.len();
            &&& rest.len() <= pieces.len()
            &&& forall|i: int| 0 < i < rest.len() ==> #[trigger] rest[i] == pieces[d + i]
            &&& rest.len() > 0 ==> rest[0].len() <= pieces[d].len() && rest[0] == pieces[d].skip(
                pieces[d].len() - rest[0].len(),
            )
            &&& pieces.flatten().len() < room ==> rest.len() == 0
            &&& pieces.flatten().len() == room && (forall|i: int|
                0 <= i < pieces.len() ==> (#[trigger] pieces[i]).len() > 0) ==> rest.len() == 0
        }),
    decreases pieces.len(),
{
    let rest = taken(pieces, room).1;
    if pieces.len() == 0 || room == 0 {
        if rest.len() > 0 {
            assert(pieces[0].skip(0) =~= pieces[0]);
            assert(pieces.flatten() == pieces[0] + pieces.drop_first().flatten());
        }
    } else if pieces[0].len() <= room {
        let tail = pieces.drop_first();
        law_taken_leaves_tail(tail, (room - pieces[0].len()) as nat);
        assert(pieces.flatten() == pieces[0] + tail.flatten());
        let d = pieces.len() - rest.len();
        assert forall|i: int| 0 < i < rest.len() implies #[trigger] rest[i] == pieces[d + i] by {
            assert(tail[d - 1 + i] == pieces[d + i]);
        }
        if rest.len() > 0 {
            assert(tail[d - 1] == pieces[d]);
        }
        if forall|i: int| 0 <= i < pieces.len() ==> (#[trigger] pieces[i]).len() > 0 {
            assert forall|i: int| 0 <= i < tail.len() implies (#[trigger] tail[i]).len() > 0 by {
                assert(tail[i] == pieces[i + 1]);
            }
        }
    } else {
        assert(pieces.flatten() == pieces[0] + pieces.drop_first().flatten());
        assert(rest[0] == pieces[0].skip(room as int));
    }
}

/// A turn of a connection, in terms of the bytes alone. What the connection and the
/// application hold goes to the socket in order, as much of it as the socket has space for
/// while its transmit half is open. Where the application is closed, was told of the
/// connection, and no piece of it remains, the transmit half is closed, unless it was
/// before, whether or not there was anything to send in this turn; otherwise the state
/// stays. What the socket received goes to the application in order, in pieces of at most
/// 32768 bytes, and something stays in the socket only where all the room is used up.
pub proof fn law_turn_exact<R>(
    c: Conn<R>,
    v0: TcpView,
    app: FromApp,
    v1: TcpView,
    out: Pumped,
    after: Conn<R>,
)
    requires
        app.serves(c, v0, v1, out),
        app.leaves(c, v0, after),
    ensures
        ({
            let v = v0;
            let v2 = v1;
            let space = if v.unsent.len() <= v.send_capacity {
                v.send_capacity - v.unsent.len()
            } else {
                0
            };
            let held = packets(c.pending).flatten() + packets(app.pieces).flatten();
            let sends = v.state == TcpState::Established || v.state == TcpState::CloseWait;
            let closes = app.closed && c.resp is None && !c.fin_sent && after.pending@.len() == 0;
            // The connection itself.
            &&& after.handle == c.handle
            &&& after.resp == c.resp
            // From the application to the socket.
            &&& v2.unsent + packets(after.pending).flatten() == v.unsent + held
            &&& v2.unsent.len() == v.unsent.len() + (if !sends {
                0
            } else if held.len() <= space {
                held.len() as int
            } else {
                space
            })
            &&& sends && held.len() < space ==> after.pending@.len() == 0
            // The end of the stream.
            &&& after.fin_sent == (c.fin_sent || closes)
            &&& v2.state == (if !closes {
                v.state
            } else if v.state == TcpState::Established || v.state == TcpState::SynReceived {
                TcpState::FinWait1
            } else if v.state == TcpState::CloseWait {
                TcpState::LastAck
            } else if v.state == TcpState::Listen || v.state == TcpState::SynSent {
                TcpState::Closed
            } else {
                v.state
            })
            // From the socket to the application.
            &&& messages(out.to_app).flatten() + v2.received == v.received
            &&& out.to_app@.len() <= app.room
            &&& forall|i: int|
                0 <= i < out.to_app@.len() ==> 0 < (#[trigger] out.to_app@[i])@.len() <= 32768 && (i + 1
                    < out.to_app@.len() ==> out.to_app@[i]@.len() == 32768)
            &&& v2.received.len() > 0 ==> out.to_app@.len() == app.room && messages(
                out.to_app,
            ).flatten().len() == app.room * 32768
            // What stays as it was, and whether the connection goes on.
            &&& v2.ends == v.ends
            &&& v2.send_capacity == v.send_capacity
            &&& v2.recv_capacity == v.recv_capacity
            &&& out.keep == !(v2.state == TcpState::Closed && v2.received.len() == 0)
        }),
{
    let queued = c.queued(app.pieces);
    let (bytes, rest) = c.turn_taken(v0, app.pieces);
    law_turn_keeps_bytes(c, v0, app.pieces, app.closed, app.room);
    law_turn_keeps_received(c, v0, app.pieces, app.closed, app.room, out);
    lemma_flatten_concat(packets(c.pending), packets(app.pieces));
    law_taken_keeps_bytes(queued, v0.room());
    law_taken_leaves_tail(queued, v0.room());
    let held = packets(c.pending).flatten() + packets(app.pieces).flatten();
    assert(queued.flatten() == held);
    assert(v0.unsent + packets(c.pending).flatten() + packets(app.pieces).flatten() =~= v0.unsent
        + held);
    assert(packets(after.pending).len() == after.pending@.len());
    law_pieces_keep_bytes(v0.received.take(given_len(v0.received.len(), app.room as nat) as int), 32768);
    assert forall|i: int| 0 <= i < out.to_app@.len() implies 0 < (#[trigger] out.to_app@[i])@.len()
        <= 32768 && (i + 1 < out.to_app@.len() ==> out.to_app@[i]@.len() == 32768) by {
        assert(messages(out.to_app)[i] == out.to_app@[i]@);
    }
    if v1.received.len() > 0 {
        lemma_full_pieces(v0.received.take(app.room * 32768), app.room as nat);
    }
}

/// As many bytes as fill `room` pieces are cut into `room` pieces.
proof fn lemma_full_pieces(bytes: Seq<u8>, room: nat)
    requires
        bytes.len() == room * CHUNK,
    ensures
        pieces_of(bytes, CHUNK as nat).len() == room,
    decreases bytes.len(),
{
    if bytes.len() > CHUNK {
        lemma_full_pieces(bytes.skip(CHUNK as int), (room - 1) as nat);
    }
}

/// An application is to be told of a connection exactly where it was not told before and
/// the transmit half of the socket is open.
pub proof fn law_news<R>(c: Conn<R>, v: TcpView)
    ensures
        c.is_news(v) <==> c.resp is Some && (v.state == TcpState::Established || v.state
            == TcpState::CloseWait),
{
}

/// The connections that go on are counted one by one.
pub proof fn law_going_on_counts(out: Seq<Pumped>, n: int)
    requires
        0 <= n < out.len(),
    ensures
        going_on(out, 0) == 0,
        going_on(out, n + 1) == going_on(out, n) + (if out[n].keep {
            1nat
        } else {
            0nat
        }),
{
}

/// Connections are in order exactly where each has a socket and no two share one.
pub proof fn law_valid_conns<R>(conns: Seq<Conn<R>>, set: SocketsView, i: int, j: int)
    requires
        are_valid(conns, set),
        0 <= i < conns.len(),
        0 <= j < conns.len(),
        i != j,
    ensures
        set.tcp.contains_key(conns[i].handle),
        conns[i].handle != conns[j].handle,
{
    if i < j {
        assert(conns[i].handle != conns[j].handle);
    } else {
        assert(conns[j].handle != conns[i].handle);
    }
}

/// The `n`-th connection from now has the local port that the counter gives, which goes
/// round after 65536 connections, over 40000 ports from 20000 on.
pub proof fn law_local_port(next_port: u16, n: nat)
    ensures
        port_of(counter_after(next_port, n)) == 20000 + (next_port + n) % 65536 % 40000,
        (Dialer { next_port }).local_port() == 20000 + next_port % 40000,
{
}

/// The half of a turn that goes to the application: it gets what the socket received, in
/// order, as far as there is room for it, and the connection goes on unless its socket is
/// closed and nothing is left in it.
pub proof fn law_turn_gives_exact<R>(
    c: Conn<R>,
    v0: TcpView,
    app: FromApp,
    v1: TcpView,
    out: Pumped,
)
    requires
        app.serves(c, v0, v1, out),
    ensures
        messages(out.to_app).flatten() + v1.received == v0.received,
        out.to_app@.len() <= app.room,
        v1.received.len() > 0 ==> out.to_app@.len() == app.room,
        out.keep == !(v1.state == TcpState::Closed && v1.received.len() == 0),
{
    law_turn_keeps_received(c, v0, app.pieces, app.closed, app.room, out);
    if v1.received.len() > 0 {
        lemma_full_pieces(v0.received.take(app.room * 32768), app.room as nat);
    }
}

/// After a turn in which the application is closed and was told of the connection, and
/// none of its pieces remains, the transmit half is closed, and so it is where neither the
/// connection nor the application had a piece in the first place. If it was not closed
/// before, the socket is in the state that closing leads to.
pub proof fn law_close_when_nothing_remains<R>(
    c: Conn<R>,
    v0: TcpView,
    app: FromApp,
    v1: TcpView,
    out: Pumped,
    after: Conn<R>,
)
    requires
        app.serves(c, v0, v1, out),
        app.leaves(c, v0, after),
        app.closed,
        c.resp is None,
    ensures
        after.pending@.len() == 0 ==> after.fin_sent,
        c.pending@.len() == 0 && app.pieces@.len() == 0 ==> after.fin_sent,
        after.fin_sent && !c.fin_sent ==> v1.state == (match v0.state {
            TcpState::Established => TcpState::FinWait1,
            TcpState::SynReceived => TcpState::FinWait1,
            TcpState::CloseWait => TcpState::LastAck,
            TcpState::Listen => TcpState::Closed,
            TcpState::SynSent => TcpState::Closed,
            other => other,
        }),
        after.pending@.len() > 0 || c.fin_sent ==> v1.state == v0.state && after.fin_sent
            == c.fin_sent,
{
    law_turn_exact(c, v0, app, v1, out, after);
    law_taken_leaves_tail(c.queued(app.pieces), v0.room());
    assert(packets(after.pending).len() == after.pending@.len());
    if c.pending@.len() == 0 && app.pieces@.len() == 0 {
        assert(c.queued(app.pieces).len() == 0);
    }
}

} // verus!

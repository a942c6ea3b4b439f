//! The encrypted tunnel: what the library relies on of boringtun, and the loops that
//! move packets between the virtual device and the network.
use crate::device::{packets, VirtDevice};
use boringtun::noise::{Tunn, TunnResult};
use vstd::prelude::*;
use x25519_dalek::{PublicKey, StaticSecret};

verus! {

/// boringtun's point-to-point tunnel.
#[verifier::external_type_specification]
#[verifier::external_body]
pub struct ExTunn(boringtun::noise::Tunn);

/// How many packets a tunnel without a session keeps for later.
pub const MAX_QUEUE: usize = 256;

/// How many bytes a data message has beyond the packet that it carries.
pub const DATA_OVERHEAD: usize = 32;

/// The length of a handshake initiation.
pub const INITIATION_LEN: usize = 148;

/// The length of a handshake response.
pub const RESPONSE_LEN: usize = 92;

/// The length of the buffer that messages are written to.
pub const BUFFER_LEN: usize = 65535;

/// The sending side of a session.
pub struct SendState {
    pub key: Seq<u8>,
    /// The index by which the peer knows the session.
    pub index: u32,
    /// The counter of the next message.
    pub counter: u64,
}

impl SendState {
    /// The sending side after `n` more messages.
    pub open spec fn after(self, n: nat) -> SendState {
        SendState { counter: ((self.counter + n) % 0x1_0000_0000_0000_0000) as u64, ..self }
    }
}

/// The data message that carries a packet.
pub uninterp spec fn sealed(s: SendState, packet: Seq<u8>) -> Seq<u8>;

/// What the datapath depends on of a tunnel.
pub struct TunnView {
    /// The keys and the settings that the tunnel was made with.
    pub private_key: Seq<u8>,
    pub peer_key: Seq<u8>,
    pub keepalive: u16,
    pub index: u32,
    /// The packets that wait for a session, oldest first.
    pub queue: Seq<Seq<u8>>,
    /// The session to send with, if there is one.
    pub session: Option<SendState>,
    /// Whether a handshake is under way.
    pub handshake: bool,
}

/// The contents of a tunnel.
pub uninterp spec fn tunn_view(t: boringtun::noise::Tunn) -> TunnView;

/// What comes of handing a message from the network to a tunnel, and the contents of the
/// tunnel afterwards. Of a handshake initiation only whether it is answered: the answer
/// itself and the keys that go with it are drawn at random.
pub uninterp spec fn tunn_opened(t: boringtun::noise::Tunn, message: Seq<u8>) -> (
    OutcomeView,
    TunnView,
);

impl TunnView {
    /// The queue with a packet behind the others, or as it is where it is full.
    pub open spec fn enqueued(self, packet: Seq<u8>) -> Seq<Seq<u8>> {
        if self.queue.len() < MAX_QUEUE {
            self.queue.push(packet)
        } else {
            self.queue
        }
    }

    /// Whether a buffer of `len` bytes has room for every queued packet in a data
    /// message.
    pub open spec fn fits(self, len: nat) -> bool {
        &&& self.queue.len() <= MAX_QUEUE
        &&& forall|i: int| 0 <= i < self.queue.len() ==> #[trigger] self.queue[i].len() + DATA_OVERHEAD <= len
    }
}

/// What a call of the tunnel asks its caller to do.
pub enum Outcome {
    Done,
    Fault,
    /// Send these bytes to the peer.
    Network(Vec<u8>),
    /// Hand this IPv4 packet to the stack.
    TunnelV4(Vec<u8>),
    /// Hand this IPv6 packet to the stack.
    TunnelV6(Vec<u8>),
}

/// The view of an [`Outcome`].
pub enum OutcomeView {
    Done,
    Fault,
    Network(Seq<u8>),
    TunnelV4(Seq<u8>),
    TunnelV6(Seq<u8>),
}

impl View for Outcome {
    type V = OutcomeView;

    open spec fn view(&self) -> OutcomeView {
        match self {
            Outcome::Done => OutcomeView::Done,
            Outcome::Fault => OutcomeView::Fault,
            Outcome::Network(p) => OutcomeView::Network(p@),
            Outcome::TunnelV4(p) => OutcomeView::TunnelV4(p@),
            Outcome::TunnelV6(p) => OutcomeView::TunnelV6(p@),
        }
    }
}

/// Whether a message has the type `kind` and `len` bytes.
pub open spec fn is_message(m: Seq<u8>, kind: u8, len: nat) -> bool {
    m.len() == len && 4 <= len && m[0] == kind && m[1] == 0 && m[2] == 0 && m[3] == 0
}

/// Whether a message is a handshake initiation.
pub open spec fn is_initiation(m: Seq<u8>) -> bool {
    is_message(m, 1, INITIATION_LEN as nat)
}

/// Whether a message is a data message of the right length for a packet.
pub open spec fn is_data(m: Seq<u8>, packet: Seq<u8>) -> bool {
    is_message(m, 4, packet.len() + DATA_OVERHEAD as nat)
}

/// Whether bytes from the network have the type and the length of a message: a
/// handshake initiation, a handshake response, a cookie reply or a data message.
pub open spec fn is_well_formed(m: Seq<u8>) -> bool {
    ||| is_initiation(m)
    ||| is_message(m, 2, RESPONSE_LEN as nat)
    ||| is_message(m, 3, 64)
    ||| m.len() >= DATA_OVERHEAD && is_message(m, 4, m.len())
}

/// What may come of handing a packet to the tunnel. With a session it becomes a
/// data message, under the next counter. Without one it is queued, and unless a
/// handshake is under way one is begun.
pub open spec fn encapsulated(t: TunnView, packet: Seq<u8>, out: OutcomeView, t2: TunnView) -> bool {
    match t.session {
        Some(s) => {
            &&& out == OutcomeView::Network(sealed(s, packet))
            &&& is_data(sealed(s, packet), packet)
            &&& t2 == (TunnView { session: Some(s.after(1)), ..t })
        },
        None => if t.handshake {
            out == OutcomeView::Done && t2 == (TunnView { queue: t.enqueued(packet), ..t })
        } else {
            out matches OutcomeView::Network(m) && is_initiation(m) && t2 == (TunnView {
                queue: t.enqueued(packet),
                handshake: true,
                ..t
            })
        },
    }
}

/// What may come of asking the tunnel for queued packets: the oldest one is taken
/// from the queue and handed to the tunnel again.
pub open spec fn resumed(t: TunnView, out: OutcomeView, t2: TunnView) -> bool {
    if t.queue.len() == 0 {
        out == OutcomeView::Done && t2 == t
    } else {
        encapsulated(TunnView { queue: t.queue.drop_first(), ..t }, t.queue[0], out, t2)
    }
}

/// Whether `p` can be the IPv4 packet inside a data message: it is as long as its
/// length field says.
pub open spec fn is_inner_v4(p: Seq<u8>, message: Seq<u8>) -> bool {
    &&& p.len() + DATA_OVERHEAD <= message.len()
    &&& p.len() >= 1 ==> p[0] / 16 == 4
    &&& p.len() >= 4 ==> p[2] * 256 + p[3] == p.len()
}

/// Whether `p` can be the IPv6 packet inside a data message.
pub open spec fn is_inner_v6(p: Seq<u8>, message: Seq<u8>) -> bool {
    &&& p.len() + DATA_OVERHEAD <= message.len()
    &&& p.len() >= 40
    &&& p[0] / 16 == 6
    &&& p[4] * 256 + p[5] + 40 == p.len()
}

/// The counter of a data message.
pub open spec fn data_counter(m: Seq<u8>) -> int {
    m[8] + m[9] * 0x100 + m[10] * 0x1_0000 + m[11] * 0x100_0000 + m[12] * 0x1_0000_0000 + m[13]
        * 0x100_0000_0000 + m[14] * 0x1_0000_0000_0000 + m[15] * 0x100_0000_0000_0000
}

/// The first counter that no data message may have: from here on the window in which
/// replayed messages are recognised would reach beyond the largest counter.
pub const COUNTER_END: u64 = 0xffff_ffff_ffff_fc00;

/// Whether a message is a data message whose counter is used up.
pub open spec fn is_spent(m: Seq<u8>) -> bool {
    m.len() >= 16 && m[0] == 4 && data_counter(m) >= COUNTER_END
}

/// Whether a message is a data message whose counter is used up.
pub fn spent(m: &[u8]) -> (yes: bool)
    ensures
        yes == is_spent(m@),
        yes == (m@.len() >= 16 && m@[0] == 4 && m@[9] >= 252 && m@[10] == 255 && m@[11] == 255
            && m@[12] == 255 && m@[13] == 255 && m@[14] == 255 && m@[15] == 255),
{
    if m.len() < 16 || m[0] != 4 {
        return false;
    }
    let low: u64 = m[8] as u64 + m[9] as u64 * 0x100 + m[10] as u64 * 0x1_0000 + m[11] as u64
        * 0x100_0000;
    let high: u64 = m[12] as u64 + m[13] as u64 * 0x100 + m[14] as u64 * 0x1_0000 + m[15] as u64
        * 0x100_0000;
    low + high * 0x1_0000_0000 >= COUNTER_END
}

/// What may come of handing a message from the network to the tunnel. The queue
/// stays as it is. An accepted handshake initiation is answered, and no handshake is
/// under way then; an accepted handshake response brings a session and is answered
/// with its first data message, which is empty; an accepted data message brings a
/// session and gives out the packet inside, if there is one.
pub open spec fn decapsulated(t: TunnView, message: Seq<u8>, out: OutcomeView, t2: TunnView) -> bool {
    &&& t2 == (TunnView { session: t2.session, handshake: t2.handshake, ..t })
    &&& !is_well_formed(message) ==> out == OutcomeView::Fault && t2 == t
    &&& match out {
        OutcomeView::Done => message[0] == 3 && t2 == t || message[0] == 4 && t2.session is Some,
        OutcomeView::Fault => message[0] != 4 ==> t2 == t,
        OutcomeView::Network(m) => {
            ||| message[0] == 1 && is_message(m, 2, RESPONSE_LEN as nat) && !t2.handshake && (
            t2.session == t.session || (t2.session matches Some(s) && s.counter == 0))
            ||| message[0] == 2 && (t2.session matches Some(s) && s.counter == 1 && {
                let first = SendState { counter: 0, ..s };
                m == sealed(first, Seq::empty()) && is_data(m, Seq::empty())
            })
        },
        OutcomeView::TunnelV4(p) => message[0] == 4 && is_inner_v4(p, message)
            && t2.session is Some,
        OutcomeView::TunnelV6(p) => message[0] == 4 && is_inner_v6(p, message)
            && t2.session is Some,
    }
}

/// Whether an outcome is the one that a message has. Of the answer to a handshake
/// initiation this says only whether there is one.
pub open spec fn is_outcome(
    opened: (OutcomeView, TunnView),
    message: Seq<u8>,
    out: OutcomeView,
    t2: TunnView,
) -> bool {
    if message[0] == 1 {
        (out is Network) == (opened.0 is Network)
    } else {
        (out, t2) == opened
    }
}

/// What may come of looking at the timers of a tunnel whose sessions are up to date:
/// nothing is due, or a handshake initiation, or an empty packet, or the tunnel gives
/// up, with or without dropping what it holds.
pub open spec fn looked(t: TunnView, out: OutcomeView, t2: TunnView) -> bool {
    ||| out == OutcomeView::Done && t2 == t
    ||| out matches OutcomeView::Network(m) && is_initiation(m) && t2 == (TunnView {
        handshake: true,
        ..t
    })
    ||| encapsulated(t, Seq::empty(), out, t2)
    ||| out == OutcomeView::Fault && t2 == t
    ||| out == OutcomeView::Fault && t2 == (TunnView {
        queue: Seq::empty(),
        session: None,
        handshake: false,
        ..t
    })
}

/// What may come of looking at the tunnel's timers, which depends on the clock: the
/// session may have run out before anything else.
pub open spec fn ticked(t: TunnView, out: OutcomeView, t2: TunnView) -> bool {
    ||| looked(t, out, t2)
    ||| looked(TunnView { session: None, ..t }, out, t2)
}

/// `Tunn::new`: a tunnel without a preshared key and with a rate limiter of its own.
/// It has no session, no handshake and no queued packet.
#[verifier::external_body]
pub(crate) fn tunn_new(private_key: [u8; 32], peer_key: [u8; 32], keepalive: u16, index: u32) -> (t:
    Tunn)
    ensures
        tunn_view(t) == (TunnView {
            private_key: private_key@,
            peer_key: peer_key@,
            keepalive,
            index,
            queue: Seq::empty(),
            session: None,
            handshake: false,
        }),
{
    let secret = StaticSecret::from(private_key);
    let public = PublicKey::from(peer_key);
    Tunn::new(secret, public, None, Some(keepalive), index, None)
}

/// `Tunn::encapsulate`. It panics where the buffer has no room for the packet in a
/// data message. A data message depends on the session's sending key, its index, the
/// counter and the packet alone. Of a handshake initiation only the type and the length
/// are stated: it holds a key that is drawn at random.
#[verifier::external_body]
pub(crate) fn tunn_encapsulate(t: &mut Tunn, packet: &[u8], buf: &mut Vec<u8>) -> (out: Outcome)
    requires
        old(buf)@.len() >= INITIATION_LEN,
        old(buf)@.len() >= packet@.len() + DATA_OVERHEAD,
    ensures
        final(buf)@.len() == old(buf)@.len(),
        encapsulated(tunn_view(*old(t)), packet@, out@, tunn_view(*final(t))),
        tunn_view(*old(t)).session matches Some(s) ==> out@ == OutcomeView::Network(
            sealed(s, packet@),
        ),
{
    match t.encapsulate(packet, buf.as_mut_slice()) {
        TunnResult::Done => Outcome::Done,
        TunnResult::Err(_) => Outcome::Fault,
        TunnResult::WriteToNetwork(m) => Outcome::Network(m.to_vec()),
        TunnResult::WriteToTunnelV4(p, _) => Outcome::TunnelV4(p.to_vec()),
        TunnResult::WriteToTunnelV6(p, _) => Outcome::TunnelV6(p.to_vec()),
    }
}

/// `Tunn::decapsulate`, without a source address. An empty message asks for queued
/// packets. The call panics where the buffer has no room for the encrypted part of a
/// data message or for a queued packet, and, where arithmetic is checked, on a data
/// message whose counter is used up. What comes of a message is a function of the tunnel
/// and the message, except that the answer to a handshake initiation is drawn at random.
#[verifier::external_body]
pub(crate) fn tunn_decapsulate(t: &mut Tunn, message: &[u8], buf: &mut Vec<u8>) -> (out: Outcome)
    requires
        old(buf)@.len() >= INITIATION_LEN,
        old(buf)@.len() + 16 >= message@.len(),
        tunn_view(*old(t)).fits(old(buf)@.len()),
        !is_spent(message@),
    ensures
        final(buf)@.len() == old(buf)@.len(),
        message@.len() == 0 ==> resumed(tunn_view(*old(t)), out@, tunn_view(*final(t))),
        message@.len() > 0 && message@[0] != 1 ==> (out@, tunn_view(*final(t))) == tunn_opened(
            *old(t),
            message@,
        ),
        message@.len() > 0 && message@[0] == 1 ==> (out@ is Network) == (tunn_opened(
            *old(t),
            message@,
        ).0 is Network),
        message@.len() > 0 ==> decapsulated(
            tunn_view(*old(t)),
            message@,
            out@,
            tunn_view(*final(t)),
        ),
{
    match t.decapsulate(None, message, buf.as_mut_slice()) {
        TunnResult::Done => Outcome::Done,
        TunnResult::Err(_) => Outcome::Fault,
        TunnResult::WriteToNetwork(m) => Outcome::Network(m.to_vec()),
        TunnResult::WriteToTunnelV4(p, _) => Outcome::TunnelV4(p.to_vec()),
        TunnResult::WriteToTunnelV6(p, _) => Outcome::TunnelV6(p.to_vec()),
    }
}

/// `Tunn::update_timers`. What is due is not stated: it rests on the clock.
#[verifier::external_body]
pub(crate) fn tunn_update_timers(t: &mut Tunn, buf: &mut Vec<u8>) -> (out: Outcome)
    requires
        old(buf)@.len() >= INITIATION_LEN,
    ensures
        final(buf)@.len() == old(buf)@.len(),
        ticked(tunn_view(*old(t)), out@, tunn_view(*final(t))),
{
    match t.update_timers(buf.as_mut_slice()) {
        TunnResult::Done => Outcome::Done,
        TunnResult::Err(_) => Outcome::Fault,
        TunnResult::WriteToNetwork(m) => Outcome::Network(m.to_vec()),
        TunnResult::WriteToTunnelV4(p, _) => Outcome::TunnelV4(p.to_vec()),
        TunnResult::WriteToTunnelV6(p, _) => Outcome::TunnelV6(p.to_vec()),
    }
}

/// The contents of a list of messages.
pub open spec fn messages(list: Vec<Vec<u8>>) -> Seq<Seq<u8>> {
    list@.map_values(|m: Vec<u8>| m@)
}

/// Does what a call of the tunnel asks for: a message goes behind the others that
/// are to be sent, an IP packet goes behind the others that the device received.
/// Says whether there was anything to do.
pub fn deliver(out: Outcome, device: &mut VirtDevice, net_out: &mut Vec<Vec<u8>>) -> (more: bool)
    ensures
        final(device).tx == old(device).tx,
        final(device).mtu == old(device).mtu,
        more == (out@ != OutcomeView::Done && out@ != OutcomeView::Fault),
        messages(*final(net_out)) == (match out@ {
            OutcomeView::Network(m) => messages(*old(net_out)).push(m),
            _ => messages(*old(net_out)),
        }),
        packets(final(device).rx) == (match out@ {
            OutcomeView::TunnelV4(p) => packets(old(device).rx).push(p),
            OutcomeView::TunnelV6(p) => packets(old(device).rx).push(p),
            _ => packets(old(device).rx),
        }),
        out matches Outcome::Network(m) ==> final(net_out)@ == old(net_out)@.push(m),
        !(out is Network) ==> final(net_out)@ == old(net_out)@,
        out matches Outcome::TunnelV4(p) ==> final(device).rx@ == old(device).rx@.push(p),
        out matches Outcome::TunnelV6(p) ==> final(device).rx@ == old(device).rx@.push(p),
        !(out is TunnelV4) && !(out is TunnelV6) ==> final(device).rx@ == old(device).rx@,
{
    match out {
        Outcome::Network(m) => {
            net_out.push(m);
            true
        },
        Outcome::TunnelV4(p) => {
            device.rx.push_back(p);
            true
        },
        Outcome::TunnelV6(p) => {
            device.rx.push_back(p);
            true
        },
        Outcome::Done => false,
        Outcome::Fault => false,
    }
}

/// Puts the message that an outcome asks to send behind the others that are to be sent,
/// where it asks for one. Says whether it does.
pub fn on_look(out: Outcome, net_out: &mut Vec<Vec<u8>>) -> (due: bool)
    ensures
        due == (out@ is Network),
        messages(*final(net_out)) == (match out@ {
            OutcomeView::Network(m) => messages(*old(net_out)).push(m),
            _ => messages(*old(net_out)),
        }),
        out matches Outcome::Network(m) ==> due && final(net_out)@ == old(net_out)@.push(m),
        !(out is Network) ==> !due && final(net_out)@ == old(net_out)@,
{
    match out {
        Outcome::Network(m) => {
            net_out.push(m);
            assert(messages(*net_out) =~= messages(*old(net_out)).push(m@));
            true
        },
        _ => false,
    }
}

impl TunnView {
    /// The tunnel with the oldest queued packet moved behind the others.
    pub open spec fn rotated(self) -> TunnView {
        TunnView { queue: self.queue.drop_first().push(self.queue[0]), ..self }
    }
}

/// Whether messages carry packets, each the packet at its own place, under the counters
/// from `s` on.
pub open spec fn carries(s: SendState, sent: Seq<Seq<u8>>, list: Seq<Seq<u8>>) -> bool {
    &&& sent.len() == list.len()
    &&& forall|i: int|
        0 <= i < sent.len() ==> #[trigger] sent[i] == sealed(s.after(i as nat), list[i]) && is_data(
            sent[i],
            list[i],
        )
}

/// What asking a tunnel for queued packets until it has nothing more to do leads
/// to. With a session, every queued packet is sent in its own data message, in
/// order. Without one nothing but a handshake initiation is sent, and none of the
/// packets is lost.
pub open spec fn flushed(t: TunnView, sent: Seq<Seq<u8>>, t2: TunnView) -> bool {
    if t.queue.len() == 0 {
        sent.len() == 0 && t2 == t
    } else if let Some(s) = t.session {
        &&& carries(s, sent, t.queue)
        &&& t2 == (TunnView {
            queue: Seq::empty(),
            session: Some(s.after(t.queue.len())),
            ..t
        })
    } else if t.handshake {
        sent.len() == 0 && t2 == t.rotated()
    } else {
        sent.len() == 1 && is_initiation(sent[0]) && t2 == (TunnView {
            handshake: true,
            ..t.rotated().rotated()
        })
    }
}

/// What one step of a flush leaves is a flush of the rest.
proof fn lemma_flush_step(
    t: TunnView,
    m: Seq<u8>,
    t1: TunnView,
    rest: Seq<Seq<u8>>,
    t2: TunnView,
)
    requires
        resumed(t, OutcomeView::Network(m), t1),
        flushed(t1, rest, t2),
        t.queue.len() <= MAX_QUEUE,
    ensures
        flushed(t, seq![m] + rest, t2),
{
    let sent = seq![m] + rest;
    assert(sent[0] == m);
    if let Some(s) = t.session {
        assert(s.after(0) == s);
        assert forall|i: int| 0 <= i < sent.len() implies #[trigger] sent[i] == sealed(
            s.after(i as nat),
            t.queue[i],
        ) && is_data(sent[i], t.queue[i]) by {
            if i > 0 {
                assert(sent[i] == rest[i - 1]);
                assert(t1.queue[i - 1] == t.queue[i]);
                assert(s.after(1).after((i - 1) as nat) == s.after(i as nat));
            }
        }
        assert(t2.queue =~= Seq::empty());
        assert(s.after(1).after((t.queue.len() - 1) as nat) == s.after(t.queue.len()));
    }
}

/// Asks the tunnel for queued packets until it has nothing more to do.
fn flush(tunn: &mut Tunn, device: &mut VirtDevice, buf: &mut Vec<u8>, net_out: &mut Vec<Vec<u8>>)
    requires
        old(buf)@.len() >= INITIATION_LEN,
        tunn_view(*old(tunn)).fits(old(buf)@.len()),
    ensures
        final(buf)@.len() == old(buf)@.len(),
        tunn_view(*final(tunn)).fits(final(buf)@.len()),
        final(device).tx == old(device).tx,
        final(device).mtu == old(device).mtu,
        packets(final(device).rx) == packets(old(device).rx),
        messages(*old(net_out)).len() <= messages(*final(net_out)).len(),
        messages(*final(net_out)).take(messages(*old(net_out)).len() as int) == messages(*old(net_out)),
        flushed(
            tunn_view(*old(tunn)),
            messages(*final(net_out)).skip(messages(*old(net_out)).len() as int),
            tunn_view(*final(tunn)),
        ),
{
    let ghost t0 = tunn_view(*tunn);
    let ghost before = messages(*net_out);
    let mut more = true;
    let nothing: Vec<u8> = Vec::new();
    let ghost mut sent: Seq<Seq<u8>> = Seq::empty();
    while more
        invariant
            buf@.len() == old(buf)@.len(),
            buf@.len() >= INITIATION_LEN,
            nothing@.len() == 0,
            before == messages(*old(net_out)),
            t0 == tunn_view(*old(tunn)),
            tunn_view(*tunn).fits(buf@.len()),
            device.tx == old(device).tx,
            device.mtu == old(device).mtu,
            packets(device.rx) == packets(old(device).rx),
            messages(*net_out) == before + sent,
            more ==> forall|rest: Seq<Seq<u8>>, t2: TunnView|
                flushed(tunn_view(*tunn), rest, t2) ==> #[trigger] flushed(t0, sent + rest, t2),
            !more ==> flushed(t0, sent, tunn_view(*tunn)),
        decreases
                if more {
                    1int
                } else {
                    0int
                },
                tunn_view(*tunn).queue.len(),
                if tunn_view(*tunn).handshake {
                    0int
                } else {
                    1int
                },
    {
        let ghost t = tunn_view(*tunn);
        let ghost sent_before = sent;
        let out = tunn_decapsulate(tunn, nothing.as_slice(), buf);
        let ghost outcome = out@;
        more = deliver(out, device, net_out);
        proof {
            let t1 = tunn_view(*tunn);
            assert forall|i: int| 0 <= i < t1.queue.len() implies #[trigger] t1.queue[i].len()
                + DATA_OVERHEAD <= buf@.len() by {
                assert(exists|j: int| 0 <= j < t.queue.len() && t1.queue[i] == t.queue[j]) by {
                    if t.queue.len() > 0 {
                        if t.session is Some {
                            assert(t1.queue[i] == t.queue[i + 1]);
                        } else if i + 1 < t.queue.len() {
                            assert(t1.queue[i] == t.queue[i + 1]);
                        } else {
                            assert(t1.queue[i] == t.queue[0]);
                        }
                    } else {
                        assert(t1.queue[i] == t.queue[i]);
                    }
                }
            }
            match outcome {
                OutcomeView::Network(m) => {
                    sent = sent_before.push(m);
                    assert forall|rest: Seq<Seq<u8>>, t2: TunnView| flushed(t1, rest, t2) implies #[trigger] flushed(
                        t0,
                        sent + rest,
                        t2,
                    ) by {
                        lemma_flush_step(t, m, t1, rest, t2);
                        assert(sent + rest =~= sent_before + (seq![m] + rest));
                    }
                },
                _ => {
                    let none: Seq<Seq<u8>> = Seq::empty();
                    assert(flushed(t, none, t1));
                    assert(sent + none =~= sent);
                },
            }
        }
    }
    assert(messages(*net_out).skip(before.len() as int) =~= sent);
}

/// What follows an outcome of the tunnel: an IP packet goes to the device, a message goes
/// to the peer, and after either the tunnel is asked for queued packets. `rx` are the
/// packets for the device and `sent` the messages for the peer.
pub open spec fn settled(
    t: TunnView,
    out: OutcomeView,
    rx: Seq<Seq<u8>>,
    sent: Seq<Seq<u8>>,
    t2: TunnView,
) -> bool {
    match out {
        OutcomeView::Done | OutcomeView::Fault => rx.len() == 0 && sent.len() == 0 && t2 == t,
        OutcomeView::Network(m) => rx.len() == 0 && sent.len() > 0 && sent[0] == m && flushed(
            t,
            sent.drop_first(),
            t2,
        ),
        OutcomeView::TunnelV4(p) => rx == seq![p] && flushed(t, sent, t2),
        OutcomeView::TunnelV6(p) => rx == seq![p] && flushed(t, sent, t2),
    }
}

/// What handing a message from the network to the tunnel, and then asking for queued
/// packets as long as the tunnel has something to do, leads to, where `opened` is what
/// comes of the message. Nothing comes of a data message whose counter is used up.
pub open spec fn received(
    t: TunnView,
    opened: (OutcomeView, TunnView),
    message: Seq<u8>,
    rx: Seq<Seq<u8>>,
    sent: Seq<Seq<u8>>,
    t2: TunnView,
) -> bool {
    if message.len() == 0 {
        rx.len() == 0 && flushed(t, sent, t2)
    } else if is_spent(message) {
        rx.len() == 0 && sent.len() == 0 && t2 == t
    } else if message[0] == 1 {
        exists|out: OutcomeView, mid: TunnView| #[trigger]
            decapsulated(t, message, out, mid) && is_outcome(opened, message, out, mid) && settled(
                mid,
                out,
                rx,
                sent,
                t2,
            )
    } else {
        decapsulated(t, message, opened.0, opened.1) && settled(opened.1, opened.0, rx, sent, t2)
    }
}

/// Does what an outcome of the tunnel asks for, and goes on for as long as the tunnel has
/// something to do.
pub fn settle(
    out: Outcome,
    tunn: &mut Tunn,
    device: &mut VirtDevice,
    buf: &mut Vec<u8>,
    net_out: &mut Vec<Vec<u8>>,
)
    requires
        old(buf)@.len() >= INITIATION_LEN,
        tunn_view(*old(tunn)).fits(old(buf)@.len()),
    ensures
        final(buf)@.len() == old(buf)@.len(),
        tunn_view(*final(tunn)).fits(final(buf)@.len()),
        final(device).tx == old(device).tx,
        final(device).mtu == old(device).mtu,
        packets(old(device).rx).len() <= packets(final(device).rx).len(),
        packets(final(device).rx).take(packets(old(device).rx).len() as int) == packets(old(device).rx),
        messages(*old(net_out)).len() <= messages(*final(net_out)).len(),
        messages(*final(net_out)).take(messages(*old(net_out)).len() as int) == messages(*old(net_out)),
        settled(
            tunn_view(*old(tunn)),
            out@,
            packets(final(device).rx).skip(packets(old(device).rx).len() as int),
            messages(*final(net_out)).skip(messages(*old(net_out)).len() as int),
            tunn_view(*final(tunn)),
        ),
        match out@ {
            OutcomeView::TunnelV4(p) => final(device).rx@.len() == old(device).rx@.len() + 1
                && final(device).rx@.last()@ == p,
            OutcomeView::TunnelV6(p) => final(device).rx@.len() == old(device).rx@.len() + 1
                && final(device).rx@.last()@ == p,
            _ => final(device).rx@.len() == old(device).rx@.len(),
        },
        out@ matches OutcomeView::Network(m) ==> final(net_out)@.len() > old(net_out)@.len()
            && final(net_out)@[old(net_out)@.len() as int]@ == m,
        out@ is Done || out@ is Fault ==> final(net_out)@.len() == old(net_out)@.len() && tunn_view(
            *final(tunn),
        ) == tunn_view(*old(tunn)),
        !(out@ is Done) && !(out@ is Fault) ==> ({
            let t = tunn_view(*old(tunn));
            let t2 = tunn_view(*final(tunn));
            let sent = messages(*final(net_out)).skip(
                old(net_out)@.len() as int + (if out@ is Network {
                    1int
                } else {
                    0int
                }),
            );
            &&& t.queue.len() == 0 ==> sent.len() == 0 && t2 == t
            &&& t2 == (TunnView {
                queue: t2.queue,
                session: t2.session,
                handshake: t2.handshake,
                ..t
            })
            &&& t.queue.len() > 0 ==> match t.session {
                Some(s) => {
                    &&& sent.len() == t.queue.len()
                    &&& forall|i: int|
                        0 <= i < t.queue.len() ==> sent[i] == sealed(
                            SendState {
                                counter: ((s.counter + i) % 0x1_0000_0000_0000_0000) as u64,
                                ..s
                            },
                            #[trigger] t.queue[i],
                        )
                    &&& t2.queue.len() == 0
                    &&& t2.handshake == t.handshake
                    &&& t2.session == Some(
                        SendState {
                            counter: ((s.counter + t.queue.len()) % 0x1_0000_0000_0000_0000) as u64,
                            ..s
                        },
                    )
                },
                None => {
                    let n = t.queue.len();
                    let moved = if t.handshake {
                        1int
                    } else if n >= 2 {
                        2int
                    } else {
                        0int
                    };
                    &&& sent.len() == (if t.handshake {
                        0nat
                    } else {
                        1nat
                    })
                    &&& sent.len() == 1 ==> sent[0].len() == 148 && sent[0].take(4) == seq![1u8, 0, 0, 0]
                    &&& t2.session is None && t2.handshake
                    &&& t2.queue == t.queue.skip(moved) + t.queue.take(moved)
                },
            }
        }),
{
    let ghost rx0 = packets(device.rx);
    let ghost net0 = messages(*net_out);
    let ghost outcome = out@;
    let ghost t0 = tunn_view(*tunn);
    let more = deliver(out, device, net_out);
    let ghost net1 = messages(*net_out);
    if more {
        flush(tunn, device, buf, net_out);
        proof {
            law_flushed_exact(t0, messages(*net_out).skip(net1.len() as int), tunn_view(*tunn));
        }
    }
    proof {
        let rx = packets(device.rx);
        assert(rx.len() == device.rx@.len() && rx0.len() == old(device).rx@.len());
        if rx.len() > 0 {
            assert(rx.last() == device.rx@.last()@);
        }
        let net = messages(*net_out);
        let sent = net.skip(net0.len() as int);
        assert(rx.take(rx0.len() as int) =~= rx0);
        assert(net.take(net0.len() as int) =~= net0) by {
            assert forall|i: int| 0 <= i < net0.len() implies net[i] == net0[i] by {
                if more {
                    assert(net.take(net1.len() as int)[i] == net1[i]);
                }
            }
        }
        match outcome {
            OutcomeView::Network(m) => {
                assert(sent.drop_first() =~= net.skip(net1.len() as int));
                assert(net.take(net1.len() as int)[net0.len() as int] == m);
            },
            OutcomeView::TunnelV4(p) => {
                assert(rx.skip(rx0.len() as int) =~= seq![p]);
                assert(rx.last() == p);
            },
            OutcomeView::TunnelV6(p) => {
                assert(rx.skip(rx0.len() as int) =~= seq![p]);
                assert(rx.last() == p);
            },
            _ => {},
        }
    }
}

/// What an outcome brings the device.
pub open spec fn packet_in(out: OutcomeView) -> Seq<Seq<u8>> {
    match out {
        OutcomeView::TunnelV4(p) => seq![p],
        OutcomeView::TunnelV6(p) => seq![p],
        _ => Seq::empty(),
    }
}

/// Decrypts a message from the network. An IP packet inside it goes to the device;
/// what the tunnel has to say in return, queued packets among it, goes to `net_out`.
pub fn decap_all(
    tunn: &mut Tunn,
    pkt: &[u8],
    device: &mut VirtDevice,
    net_out: &mut Vec<Vec<u8>>,
)
    requires
        pkt@.len() <= BUFFER_LEN + 16,
        tunn_view(*old(tunn)).fits(BUFFER_LEN as nat),
    ensures
        tunn_view(*final(tunn)).fits(BUFFER_LEN as nat),
        final(device).tx == old(device).tx,
        final(device).mtu == old(device).mtu,
        packets(old(device).rx).len() <= packets(final(device).rx).len(),
        packets(final(device).rx).take(packets(old(device).rx).len() as int) == packets(old(device).rx),
        messages(*old(net_out)).len() <= messages(*final(net_out)).len(),
        messages(*final(net_out)).take(messages(*old(net_out)).len() as int) == messages(*old(net_out)),
        received(
            tunn_view(*old(tunn)),
            tunn_opened(*old(tunn), pkt@),
            pkt@,
            packets(final(device).rx).skip(packets(old(device).rx).len() as int),
            messages(*final(net_out)).skip(messages(*old(net_out)).len() as int),
            tunn_view(*final(tunn)),
        ),
        pkt@.len() > 0 && pkt@[0] != 1 && !is_spent(pkt@) ==> packets(final(device).rx) == packets(
            old(device).rx,
        ) + packet_in(tunn_opened(*old(tunn), pkt@).0),
        ({
            let (out, mid) = tunn_opened(*old(tunn), pkt@);
            let n = old(net_out)@.len() as int;
            let first = n + (if out is Network {
                1int
            } else {
                0int
            });
            pkt@.len() > 0 && pkt@[0] != 1 && !(pkt@.len() >= 16 && pkt@[0] == 4 && pkt@[9]
                >= 252 && pkt@[10] == 255 && pkt@[11] == 255 && pkt@[12] == 255 && pkt@[13]
                == 255 && pkt@[14] == 255 && pkt@[15] == 255) ==> {
                &&& match out {
                    OutcomeView::TunnelV4(p) => final(device).rx@.len() == old(device).rx@.len() + 1
                        && final(device).rx@.last()@ == p,
                    OutcomeView::TunnelV6(p) => final(device).rx@.len() == old(device).rx@.len() + 1
                        && final(device).rx@.last()@ == p,
                    _ => final(device).rx@.len() == old(device).rx@.len(),
                }
                &&& out matches OutcomeView::Network(m) ==> final(net_out)@.len() > n && final(net_out)@[n]@ == m
                &&& out is Done || out is Fault ==> final(net_out)@.len() == n && tunn_view(
                    *final(tunn),
                ) == mid
                &&& !(out is Done) && !(out is Fault) ==> match mid.session {
                    Some(s) => {
                        &&& final(net_out)@.len() == first + mid.queue.len()
                        &&& forall|i: int|
                            0 <= i < mid.queue.len() ==> final(net_out)@[first + i]@ == sealed(
                                SendState {
                                    counter: ((s.counter + i) % 0x1_0000_0000_0000_0000) as u64,
                                    ..s
                                },
                                #[trigger] mid.queue[i],
                            )
                        &&& tunn_view(*final(tunn)).queue.len() == 0
                    },
                    None => {
                        &&& final(net_out)@.len() == first + (if mid.queue.len() > 0
                            && !mid.handshake {
                            1int
                        } else {
                            0int
                        })
                        &&& tunn_view(*final(tunn)).queue.to_multiset() == mid.queue.to_multiset()
                    },
                }
            }
        }),
        forall|i: int|
            0 <= i < old(net_out)@.len() ==> (#[trigger] final(net_out)@[i])@ == old(net_out)@[i]@,
        forall|i: int|
            0 <= i < old(device).rx@.len() ==> (#[trigger] final(device).rx@[i])@ == old(device).rx@[i]@,
{
    let ghost t0 = tunn_view(*tunn);
    let ghost rx0 = packets(device.rx);
    let ghost net0 = messages(*net_out);
    let mut buf: Vec<u8> = vec![0u8; BUFFER_LEN];
    if spent(pkt) {
        assert(packets(device.rx).take(rx0.len() as int) =~= rx0);
        assert(messages(*net_out).take(net0.len() as int) =~= net0);
        return;
    }
    if pkt.len() == 0 {
        flush(tunn, device, &mut buf, net_out);
        proof {
            assert(packets(device.rx).take(rx0.len() as int) =~= rx0);
            lemma_raw_prefix(rx0, *device, *old(device), *net_out, *old(net_out));
        }
        return;
    }
    let out = tunn_decapsulate(tunn, pkt, &mut buf);
    let ghost outcome = out@;
    let ghost mid = tunn_view(*tunn);
    assert(mid.fits(buf@.len())) by {
        assert(mid.queue == t0.queue);
        assert forall|i: int| 0 <= i < mid.queue.len() implies #[trigger] mid.queue[i].len()
            + DATA_OVERHEAD <= buf@.len() by {
            assert(t0.queue[i].len() + DATA_OVERHEAD <= buf@.len());
        }
    }
    settle(out, tunn, device, &mut buf, net_out);
    proof {
        let rx = packets(device.rx);
        assert(decapsulated(t0, pkt@, outcome, mid));
        assert(rx =~= rx.take(rx0.len() as int) + rx.skip(rx0.len() as int));
        assert(rx.skip(rx0.len() as int) =~= packet_in(outcome));
        lemma_raw_prefix(rx0, *device, *old(device), *net_out, *old(net_out));
        let net = messages(*net_out);
        let sent = net.skip(net0.len() as int);
        let t2 = tunn_view(*tunn);
        assert(net.len() == net_out@.len() && net0.len() == old(net_out)@.len());
        assert(rx.len() == device.rx@.len() && rx0.len() == old(device).rx@.len());
        assert(rx.len() > 0 ==> rx.last() == device.rx@.last()@);
        law_settled_exact(mid, outcome, rx.skip(rx0.len() as int), sent, t2);
        let first = if outcome is Network {
            1int
        } else {
            0int
        };
        assert forall|i: int| 0 <= i < sent.len() implies #[trigger] sent[i] == net_out@[net0.len()
            + i]@ by {
            assert(net[net0.len() + i] == net_out@[net0.len() + i]@);
        }
        if sent.len() > 0 {
            assert(sent[0] == net_out@[net0.len() as int]@);
        }
        if let Some(s) = mid.session {
            if !(outcome is Done) && !(outcome is Fault) {
                assert forall|i: int| 0 <= i < mid.queue.len() implies net_out@[net0.len() + first
                    + i]@ == sealed(
                    SendState {
                        counter: ((s.counter + i) % 0x1_0000_0000_0000_0000) as u64,
                        ..s
                    },
                    #[trigger] mid.queue[i],
                ) by {
                    assert(sent[first + i] == net_out@[net0.len() + (first + i)]@);
                }
            }
        }
    }
}

/// What stood in front in two lists stands there item by item.
proof fn lemma_raw_prefix(
    rx0: Seq<Seq<u8>>,
    device: VirtDevice,
    before: VirtDevice,
    net: Vec<Vec<u8>>,
    net_before: Vec<Vec<u8>>,
)
    requires
        rx0 == packets(before.rx),
        packets(before.rx).len() <= packets(device.rx).len(),
        packets(device.rx).take(rx0.len() as int) == rx0,
        messages(net_before).len() <= messages(net).len(),
        messages(net).take(messages(net_before).len() as int) == messages(net_before),
    ensures
        forall|i: int|
            0 <= i < before.rx@.len() ==> (#[trigger] device.rx@[i])@ == before.rx@[i]@,
        forall|i: int| 0 <= i < net_before@.len() ==> (#[trigger] net@[i])@ == net_before@[i]@,
{
    assert forall|i: int| 0 <= i < before.rx@.len() implies (#[trigger] device.rx@[i])@
        == before.rx@[i]@ by {
        assert(packets(device.rx).take(rx0.len() as int)[i] == rx0[i]);
    }
    assert forall|i: int| 0 <= i < net_before@.len() implies (#[trigger] net@[i])@
        == net_before@[i]@ by {
        assert(messages(net).take(messages(net_before).len() as int)[i] == messages(net_before)[i]);
    }
}

/// What handing packets to the tunnel one after the other leads to. With a session,
/// every packet is sent in its own data message, in order. Without one they are
/// queued as far as there is room, and a handshake is begun unless one is under way.
pub open spec fn transmitted(
    t: TunnView,
    tx: Seq<Seq<u8>>,
    sent: Seq<Seq<u8>>,
    t2: TunnView,
) -> bool {
    if let Some(s) = t.session {
        &&& carries(s, sent, tx)
        &&& t2 == (TunnView { session: Some(s.after(tx.len())), ..t })
    } else {
        let room = if t.queue.len() <= MAX_QUEUE {
            MAX_QUEUE - t.queue.len()
        } else {
            0
        };
        let taken = if tx.len() <= room {
            tx.len() as int
        } else {
            room
        };
        &&& sent.len() == (if tx.len() == 0 || t.handshake {
            0nat
        } else {
            1nat
        })
        &&& sent.len() == 1 ==> is_initiation(sent[0])
        &&& t2 == (TunnView {
            queue: t.queue + tx.take(taken),
            handshake: t.handshake || tx.len() > 0,
            ..t
        })
    }
}

/// Encrypts every packet that the device wants to send, and empties its queue.
pub fn encap_all(
    tunn: &mut Tunn,
    device: &mut VirtDevice,
    buf: &mut Vec<u8>,
    net_out: &mut Vec<Vec<u8>>,
)
    requires
        old(buf)@.len() >= INITIATION_LEN,
        tunn_view(*old(tunn)).fits(old(buf)@.len()),
        forall|i: int|
            0 <= i < packets(old(device).tx).len() ==> #[trigger] packets(old(device).tx)[i].len()
                + DATA_OVERHEAD <= old(buf)@.len(),
    ensures
        final(buf)@.len() == old(buf)@.len(),
        tunn_view(*final(tunn)).fits(final(buf)@.len()),
        final(device).rx == old(device).rx,
        final(device).mtu == old(device).mtu,
        packets(final(device).tx) == Seq::<Seq<u8>>::empty(),
        messages(*old(net_out)).len() <= messages(*final(net_out)).len(),
        messages(*final(net_out)).take(messages(*old(net_out)).len() as int) == messages(*old(net_out)),
        transmitted(
            tunn_view(*old(tunn)),
            packets(old(device).tx),
            messages(*final(net_out)).skip(messages(*old(net_out)).len() as int),
            tunn_view(*final(tunn)),
        ),
        final(device).tx@.len() == 0,
        tunn_view(*old(tunn)).session matches Some(s) ==> {
            &&& final(net_out)@.len() == old(net_out)@.len() + old(device).tx@.len()
            &&& forall|i: int|
                0 <= i < old(device).tx@.len() ==> final(net_out)@[old(net_out)@.len() + i]@ == sealed(
                    SendState {
                        counter: ((s.counter + i) % 0x1_0000_0000_0000_0000) as u64,
                        ..s
                    },
                    (#[trigger] old(device).tx@[i])@,
                )
            &&& tunn_view(*final(tunn)) == (TunnView {
                session: Some(
                    SendState {
                        counter: ((s.counter + old(device).tx@.len()) % 0x1_0000_0000_0000_0000) as u64,
                        ..s
                    },
                ),
                ..tunn_view(*old(tunn))
            })
        },
        tunn_view(*old(tunn)).session is None ==> {
            let n = tunn_view(*old(tunn)).queue.len();
            &&& final(net_out)@.len() == old(net_out)@.len() + (if old(device).tx@.len() > 0
                && !tunn_view(*old(tunn)).handshake {
                1int
            } else {
                0int
            })
            &&& final(net_out)@.len() > old(net_out)@.len() ==> is_initiation(final(net_out)@.last()@)
            &&& tunn_view(*final(tunn)).session is None
            &&& tunn_view(*final(tunn)).handshake == (tunn_view(*old(tunn)).handshake || old(device).tx@.len() > 0)
            &&& tunn_view(*final(tunn)).queue.len() == (if n + old(device).tx@.len() <= 256 {
                (n + old(device).tx@.len()) as nat
            } else if n <= 256 {
                256nat
            } else {
                n
            })
            &&& tunn_view(*final(tunn)).queue.take(n as int) == tunn_view(*old(tunn)).queue
            &&& forall|i: int|
                0 <= i < tunn_view(*final(tunn)).queue.len() - n
                    ==> tunn_view(*final(tunn)).queue[n + i] == (#[trigger] old(device).tx@[i])@
        },
        forall|i: int| 0 <= i < old(net_out)@.len() ==> (#[trigger] final(net_out)@[i])@ == old(net_out)@[i]@,
{
    let ghost t0 = tunn_view(*tunn);
    let ghost tx0 = packets(device.tx);
    let ghost net0 = messages(*net_out);
    let ghost mut done: int = 0;
    let ghost mut sent: Seq<Seq<u8>> = Seq::empty();
    proof {
        assert(tx0.take(0) =~= Seq::empty());
        assert(tx0.skip(0) =~= tx0);
        assert(t0.queue + tx0.take(0) =~= t0.queue);
        if let Some(s) = t0.session {
            assert(s.after(0) == s);
        }
    }
    loop
        invariant
            buf@.len() == old(buf)@.len(),
            buf@.len() >= INITIATION_LEN,
            tunn_view(*tunn).fits(buf@.len()),
            device.rx == old(device).rx,
            device.mtu == old(device).mtu,
            t0 == tunn_view(*old(tunn)),
            t0.fits(buf@.len()),
            tx0 == packets(old(device).tx),
            net0 == messages(*old(net_out)),
            0 <= done <= tx0.len(),
            packets(device.tx) == tx0.skip(done),
            messages(*net_out) == net0 + sent,
            transmitted(t0, tx0.take(done), sent, tunn_view(*tunn)),
            forall|i: int| 0 <= i < tx0.len() ==> #[trigger] tx0[i].len() + DATA_OVERHEAD <= buf@.len(),
        ensures
            done == tx0.len(),
        decreases tx0.len() - done,
    {
        let ghost left = packets(device.tx);
        match device.tx.pop_front() {
            None => {
                assert(left.len() == 0);
                break ;
            },
            Some(ip) => {
                let ghost t = tunn_view(*tunn);
                assert(ip@ == tx0[done]) by {
                    assert(left[0] == ip@);
                }
                assert(packets(device.tx) =~= left.drop_first());
                assert(left.drop_first() =~= tx0.skip(done + 1));
                let out = tunn_encapsulate(tunn, ip.as_slice(), buf);
                let ghost outcome = out@;
                let _ = on_look(out, net_out);
                proof {
                    let t1 = tunn_view(*tunn);
                    let sent_before = sent;
                    match outcome {
                        OutcomeView::Network(m) => {
                            sent = sent_before.push(m);
                        },
                        _ => {},
                    }
                    assert(messages(*net_out) =~= net0 + sent);
                    let had = tx0.take(done);
                    let has = tx0.take(done + 1);
                    assert(has =~= had.push(tx0[done]));
                    if let Some(s) = t0.session {
                        assert(s.after(done as nat).after(1) == s.after((done + 1) as nat));
                        assert forall|i: int| 0 <= i < sent.len() implies #[trigger] sent[i]
                            == sealed(s.after(i as nat), has[i]) && is_data(sent[i], has[i]) by {
                            if i < sent_before.len() {
                                assert(sent[i] == sent_before[i]);
                                assert(has[i] == had[i]);
                            }
                        }
                    } else {
                        let room = MAX_QUEUE - t0.queue.len();
                        if done + 1 <= room {
                            assert(had.take(done) =~= had);
                            assert(has.take(done + 1) =~= has);
                            assert(t1.queue =~= t0.queue + has);
                        } else {
                            let before = if done <= room {
                                done
                            } else {
                                room
                            };
                            assert(has.take(room) =~= had.take(before));
                            assert(t1.queue =~= t0.queue + has.take(room));
                        }
                    }
                    assert forall|i: int| 0 <= i < t1.queue.len() implies #[trigger] t1.queue[i].len()
                        + DATA_OVERHEAD <= buf@.len() by {
                        if i < t.queue.len() {
                            assert(t1.queue[i] == t.queue[i]);
                        } else {
                            assert(t1.queue[i] == tx0[done]);
                        }
                    }
                    done = done + 1;
                }
            },
        }
    }
    assert(tx0.take(done) =~= tx0);
    assert(messages(*net_out).skip(net0.len() as int) =~= sent);
    assert(messages(*net_out).take(net0.len() as int) =~= net0);
    assert(packets(device.tx) =~= Seq::empty());
    proof {
        let t2 = tunn_view(*tunn);
        let net2 = messages(*net_out);
        law_every_packet_sent(t0, tx0, sent, t2);
        assert(packets(device.tx).len() == device.tx@.len());
        assert(tx0.len() == old(device).tx@.len());
        assert(net2.len() == net_out@.len() && net0.len() == old(net_out)@.len());
        assert forall|i: int| 0 <= i < net0.len() implies (#[trigger] net_out@[i])@ == old(net_out)@[i]@ by {
            assert(net2.take(net0.len() as int)[i] == net0[i]);
        }
        if let Some(s) = t0.session {
            assert forall|i: int| 0 <= i < tx0.len() implies net_out@[net0.len() + i]@ == sealed(
                SendState {
                    counter: ((s.counter + i) % 0x1_0000_0000_0000_0000) as u64,
                    ..s
                },
                (#[trigger] old(device).tx@[i])@,
            ) by {
                assert(net2[net0.len() + i] == sent[i]);
                assert(tx0[i] == old(device).tx@[i]@);
            }
        } else {
            assert(sent.len() == 1 ==> net2[net0.len() as int] == sent[0]);
            let n = t0.queue.len();
            assert forall|i: int| 0 <= i < t2.queue.len() - n implies t2.queue[n + i] == (
            #[trigger] old(device).tx@[i])@ by {
                assert(tx0[i] == old(device).tx@[i]@);
            }
        }
    }
}

/// What looking at the timers again and again leads to, as long as each look has a
/// message to send.
pub open spec fn ticks(t: TunnView, sent: Seq<Seq<u8>>, t2: TunnView) -> bool
    decreases sent.len(),
{
    if sent.len() == 0 {
        t2 == t
    } else {
        exists|mid: TunnView|
            ticks(t, sent.drop_last(), mid) && #[trigger] ticked(
                mid,
                OutcomeView::Network(sent.last()),
                t2,
            )
    }
}

/// What looking at the timers until nothing is due leads to. The number of looks is
/// bounded by a 64-bit counter. Since the clock decides what is due, and nothing may be,
/// this also holds where the timers were not looked at and nothing has changed.
pub open spec fn timers_run(t: TunnView, sent: Seq<Seq<u8>>, t2: TunnView) -> bool {
    ||| exists|mid: TunnView, out: OutcomeView| #[trigger]
        ticked(mid, out, t2) && !(out is Network) && ticks(t, sent, mid)
    ||| sent.len() == u64::MAX && ticks(t, sent, t2)
}

/// Looks at the timers of the tunnel until nothing is due, and sends what they ask for:
/// handshake initiations and keepalives. What is due rests on the clock, so of a tunnel
/// that is left as it is the contract does not say whether its timers were looked at;
/// what is done with each outcome is stated by [`on_look`].
pub fn run_timers(tunn: &mut Tunn, buf: &mut Vec<u8>, net_out: &mut Vec<Vec<u8>>)
    requires
        old(buf)@.len() >= INITIATION_LEN,
        tunn_view(*old(tunn)).fits(old(buf)@.len()),
    ensures
        final(buf)@.len() == old(buf)@.len(),
        tunn_view(*final(tunn)).fits(final(buf)@.len()),
        messages(*old(net_out)).len() <= messages(*final(net_out)).len(),
        messages(*final(net_out)).take(messages(*old(net_out)).len() as int) == messages(*old(net_out)),
        timers_run(
            tunn_view(*old(tunn)),
            messages(*final(net_out)).skip(messages(*old(net_out)).len() as int),
            tunn_view(*final(tunn)),
        ),
{
    let ghost t0 = tunn_view(*tunn);
    let ghost net0 = messages(*net_out);
    let ghost mut sent: Seq<Seq<u8>> = Seq::empty();
    let mut looks: u64 = 0;
    let mut due = true;
    while due && looks < u64::MAX
        invariant
            buf@.len() == old(buf)@.len(),
            buf@.len() >= INITIATION_LEN,
            tunn_view(*tunn).fits(buf@.len()),
            net0 == messages(*old(net_out)),
            messages(*net_out) == net0 + sent,
            due ==> sent.len() == looks && ticks(t0, sent, tunn_view(*tunn)),
            !due ==> timers_run(t0, sent, tunn_view(*tunn)),
        decreases
                u64::MAX - looks,
                if due {
                    1int
                } else {
                    0int
                },
    {
        let ghost t = tunn_view(*tunn);
        let out = tunn_update_timers(tunn, buf);
        let ghost outcome = out@;
        let ghost t1 = tunn_view(*tunn);
        assert(t1.fits(buf@.len())) by {
            assert forall|i: int| 0 <= i < t1.queue.len() implies #[trigger] t1.queue[i].len()
                + DATA_OVERHEAD <= buf@.len() by {
                if i < t.queue.len() {
                    assert(t1.queue[i] == t.queue[i]);
                }
            }
        }
        assert(ticked(t, outcome, t1));
        due = on_look(out, net_out);
        proof {
            match outcome {
                OutcomeView::Network(m) => {
                    let longer = sent.push(m);
                    assert(longer.drop_last() =~= sent);
                    assert(ticked(t, OutcomeView::Network(longer.last()), t1));
                    assert(ticks(t0, longer, t1));
                    assert(messages(*net_out) =~= net0 + longer);
                    sent = longer;
                },
                _ => {},
            }
        }
        if due {
            looks = looks + 1;
        }
    }
    assert(messages(*net_out).skip(net0.len() as int) =~= sent);
    assert(messages(*net_out).take(net0.len() as int) =~= net0);
}

/// How many seconds pass between the keepalives of an idle tunnel.
pub const KEEPALIVE: u16 = 10;

/// Makes the tunnel and begins its handshake: the first message to the peer is a
/// handshake initiation.
pub fn start_tunnel(
    private_key: [u8; 32],
    peer_key: [u8; 32],
    buf: &mut Vec<u8>,
    net_out: &mut Vec<Vec<u8>>,
) -> (tunn: Tunn)
    requires
        old(buf)@.len() >= INITIATION_LEN,
    ensures
        final(buf)@.len() == old(buf)@.len(),
        tunn_view(tunn).fits(final(buf)@.len()),
        tunn_view(tunn) == (TunnView {
            private_key: private_key@,
            peer_key: peer_key@,
            keepalive: KEEPALIVE,
            index: 0,
            queue: seq![Seq::<u8>::empty()],
            session: None,
            handshake: true,
        }),
        messages(*final(net_out)).len() == messages(*old(net_out)).len() + 1,
        messages(*final(net_out)).drop_last() == messages(*old(net_out)),
        is_initiation(messages(*final(net_out)).last()),
{
    let mut tunn = tunn_new(private_key, peer_key, KEEPALIVE, 0);
    let nothing: Vec<u8> = Vec::new();
    let out = tunn_encapsulate(&mut tunn, nothing.as_slice(), buf);
    assert(nothing@ =~= Seq::empty());
    let _ = on_look(out, net_out);
    assert(messages(*net_out).drop_last() =~= messages(*old(net_out)));
    assert(tunn_view(tunn).queue =~= seq![Seq::<u8>::empty()]);
    tunn
}

/// Packets that the stack sent before there was a session are not lost, as long as
/// the queue had room for them: once the peer's handshake response is accepted,
/// which is when there is an answer to it, all of them are sent, in order, each in
/// its own data message of the new session, right behind the empty message that
/// confirms the session.
pub proof fn law_early_packets_sent(
    t: TunnView,
    tx: Seq<Seq<u8>>,
    begun: Seq<Seq<u8>>,
    t1: TunnView,
    opened: (OutcomeView, TunnView),
    response: Seq<u8>,
    rx: Seq<Seq<u8>>,
    sent: Seq<Seq<u8>>,
    t2: TunnView,
)
    requires
        t.session is None,
        t.queue.len() + tx.len() <= MAX_QUEUE,
        transmitted(t, tx, begun, t1),
        is_message(response, 2, RESPONSE_LEN as nat),
        received(t1, opened, response, rx, sent, t2),
        opened.0 is Network,
    ensures
        rx.len() == 0,
        t2.queue.len() == 0,
        t2.session matches Some(s2) && carries(
            SendState { counter: 0, ..s2 },
            sent,
            seq![Seq::<u8>::empty()] + t.queue + tx,
        ),
{
    assert(tx.take(tx.len() as int) =~= tx);
    let (out, mid) = opened;
    let waiting = t.queue + tx;
    assert(mid.queue == waiting);
    let s = mid.session->0;
    let first = SendState { counter: 0, ..s };
    let all = seq![Seq::<u8>::empty()] + t.queue + tx;
    assert(all =~= seq![Seq::<u8>::empty()] + waiting);
    assert(first.after(1) == s);
    assert(first.after(0) == first);
    assert forall|i: int| 0 <= i < sent.len() implies #[trigger] sent[i] == sealed(
        first.after(i as nat),
        all[i],
    ) && is_data(sent[i], all[i]) by {
        if i > 0 {
            assert(sent[i] == sent.drop_first()[i - 1]);
            assert(all[i] == waiting[i - 1]);
            assert(s.after((i - 1) as nat) == first.after(i as nat));
        }
    }
}

/// Asking a tunnel without a session for queued packets loses none of them.
pub proof fn law_flush_keeps_packets(t: TunnView, sent: Seq<Seq<u8>>, t2: TunnView)
    requires
        t.session is None,
        flushed(t, sent, t2),
    ensures
        t2.queue.to_multiset() == t.queue.to_multiset(),
{
    if t.queue.len() > 0 {
        lemma_rotated(t);
        lemma_rotated(t.rotated());
    }
}

/// Moving the oldest packet behind the others keeps all of them.
proof fn lemma_rotated(t: TunnView)
    requires
        t.queue.len() > 0,
    ensures
        t.rotated().queue.to_multiset() == t.queue.to_multiset(),
        t.rotated().queue.len() == t.queue.len(),
{
    let first = seq![t.queue[0]];
    let rest = t.queue.drop_first();
    assert(t.queue =~= first + rest);
    assert(t.rotated().queue =~= rest + first);
    vstd::seq_lib::lemma_multiset_commutative(first, rest);
    vstd::seq_lib::lemma_multiset_commutative(rest, first);
    assert(first.to_multiset().add(rest.to_multiset()) =~= rest.to_multiset().add(
        first.to_multiset(),
    ));
}

/// A message from the network brings at most one packet, which was inside a data message
/// and is no longer than that.
pub proof fn law_one_packet_per_message(
    t: TunnView,
    opened: (OutcomeView, TunnView),
    message: Seq<u8>,
    rx: Seq<Seq<u8>>,
    sent: Seq<Seq<u8>>,
    t2: TunnView,
)
    requires
        received(t, opened, message, rx, sent, t2),
    ensures
        rx.len() <= 1,
        rx.len() == 1 ==> is_message(message, 4, message.len()) && rx[0].len() + DATA_OVERHEAD
            <= message.len(),
{
}

/// Whatever the number of packets: with a session there is one message for each of them,
/// the sealed form of that packet under the counter that is as many further as the packet
/// is from the first, and nothing else is sent. Without a session the packets wait behind
/// those that wait already, as long as no more than 256 do, and one handshake initiation is
/// sent unless a handshake is under way or there is no packet.
pub proof fn law_every_packet_sent(
    t: TunnView,
    tx: Seq<Seq<u8>>,
    sent: Seq<Seq<u8>>,
    t2: TunnView,
)
    requires
        transmitted(t, tx, sent, t2),
    ensures
        t.session matches Some(s) ==> {
            &&& sent.len() == tx.len()
            &&& forall|i: int|
                0 <= i < tx.len() ==> #[trigger] sent[i] == sealed(
                    SendState {
                        counter: ((s.counter + i) % 0x1_0000_0000_0000_0000) as u64,
                        ..s
                    },
                    tx[i],
                )
            &&& t2 == (TunnView {
                session: Some(
                    SendState {
                        counter: ((s.counter + tx.len()) % 0x1_0000_0000_0000_0000) as u64,
                        ..s
                    },
                ),
                ..t
            })
        },
        t.session is None ==> {
            let n = t.queue.len();
            &&& sent.len() == (if tx.len() > 0 && !t.handshake {
                1nat
            } else {
                0nat
            })
            &&& sent.len() == 1 ==> is_initiation(sent[0])
            &&& t2.session is None
            &&& t2.handshake == (t.handshake || tx.len() > 0)
            &&& t2.queue.len() == (if n + tx.len() <= 256 {
                n + tx.len()
            } else if n <= 256 {
                256nat
            } else {
                n
            })
            &&& t2.queue.take(n as int) == t.queue
            &&& forall|i: int|
                0 <= i < t2.queue.len() - n ==> t2.queue[n + i] == #[trigger] tx[i]
        },
{
    if t.session is None {
        assert(t2.queue.take(t.queue.len() as int) =~= t.queue);
    }
}

/// What follows an outcome, message by message: a packet for the device is the only one; a
/// message for the peer comes first; then, with a session, each queued packet is sent under
/// its own counter and none is left, and without one none is lost.
pub proof fn law_settled_exact(
    t: TunnView,
    out: OutcomeView,
    rx: Seq<Seq<u8>>,
    sent: Seq<Seq<u8>>,
    t2: TunnView,
)
    requires
        settled(t, out, rx, sent, t2),
    ensures
        match out {
            OutcomeView::TunnelV4(p) => rx.len() == 1 && rx[0] == p,
            OutcomeView::TunnelV6(p) => rx.len() == 1 && rx[0] == p,
            _ => rx.len() == 0,
        },
        out matches OutcomeView::Network(m) ==> sent.len() > 0 && sent[0] == m,
        out is Done || out is Fault ==> sent.len() == 0 && t2 == t,
        !(out is Done) && !(out is Fault) ==> ({
            let first = if out is Network {
                1int
            } else {
                0int
            };
            match t.session {
                Some(s) => {
                    &&& sent.len() == first + t.queue.len()
                    &&& forall|i: int|
                        0 <= i < t.queue.len() ==> sent[first + i] == sealed(
                            SendState {
                                counter: ((s.counter + i) % 0x1_0000_0000_0000_0000) as u64,
                                ..s
                            },
                            #[trigger] t.queue[i],
                        )
                    &&& t2.queue.len() == 0
                },
                None => {
                    &&& sent.len() == first + (if t.queue.len() > 0 && !t.handshake {
                        1int
                    } else {
                        0int
                    })
                    &&& t2.queue.to_multiset() == t.queue.to_multiset()
                },
            }
        }),
{
    if !(out is Done) && !(out is Fault) {
        let rest = if out is Network {
            sent.drop_first()
        } else {
            sent
        };
        let first = if out is Network {
            1int
        } else {
            0int
        };
        assert(flushed(t, rest, t2));
        if t.session is None {
            law_flush_keeps_packets(t, rest, t2);
        } else {
            let s = t.session->0;
            assert forall|i: int| 0 <= i < t.queue.len() implies sent[first + i] == sealed(
                SendState {
                    counter: ((s.counter + i) % 0x1_0000_0000_0000_0000) as u64,
                    ..s
                },
                #[trigger] t.queue[i],
            ) by {
                assert(sent[first + i] == rest[i]);
            }
        }
    }
}

/// A data message is dropped unread exactly where its counter, eight bytes of which the
/// most significant one is the last, is 1024 or less below the end of its range.
pub proof fn law_spent_bytes(m: Seq<u8>)
    ensures
        is_spent(m) <==> m.len() >= 16 && m[0] == 4 && m[9] >= 252 && m[10] == 255 && m[11] == 255
            && m[12] == 255 && m[13] == 255 && m[14] == 255 && m[15] == 255,
{
}

/// Every message that the timers ask for comes of one look at the tunnel as the look before
/// left it.
pub proof fn law_ticks_one_by_one(t: TunnView, sent: Seq<Seq<u8>>, m: Seq<u8>, t2: TunnView)
    ensures
        ticks(t, Seq::<Seq<u8>>::empty(), t2) <==> t2 == t,
        ticks(t, sent.push(m), t2) <==> exists|mid: TunnView|
            ticks(t, sent, mid) && #[trigger] ticked(mid, OutcomeView::Network(m), t2),
{
    let longer = sent.push(m);
    assert(longer.drop_last() =~= sent);
    assert(longer.last() == m);
    if ticks(t, longer, t2) {
        let mid = choose|mid: TunnView|
            ticks(t, longer.drop_last(), mid) && #[trigger] ticked(
                mid,
                OutcomeView::Network(longer.last()),
                t2,
            );
        assert(ticked(mid, OutcomeView::Network(m), t2));
    }
    if exists|mid: TunnView|
        ticks(t, sent, mid) && #[trigger] ticked(mid, OutcomeView::Network(m), t2) {
        let mid = choose|mid: TunnView|
            ticks(t, sent, mid) && #[trigger] ticked(mid, OutcomeView::Network(m), t2);
        assert(ticked(mid, OutcomeView::Network(longer.last()), t2));
    }
}

/// The contents of a list of messages are the contents of each, in order.
pub proof fn law_messages_in_order(list: Vec<Vec<u8>>)
    ensures
        messages(list).len() == list@.len(),
        forall|i: int| 0 <= i < list@.len() ==> #[trigger] messages(list)[i] == list@[i]@,
{
}

/// Asking a tunnel for queued packets, message by message. With a session every packet is
/// sent, in order, under its own counter. Without one, one handshake initiation is sent
/// unless a handshake is under way, and the packets go on waiting: the oldest has moved to
/// the end, or the oldest two where the handshake was begun.
pub proof fn law_flushed_exact(t: TunnView, sent: Seq<Seq<u8>>, t2: TunnView)
    requires
        flushed(t, sent, t2),
    ensures
        ({
            &&& t.queue.len() == 0 ==> sent.len() == 0 && t2 == t
            &&& t2 == (TunnView {
                queue: t2.queue,
                session: t2.session,
                handshake: t2.handshake,
                ..t
            })
            &&& t.queue.len() > 0 ==> match t.session {
                Some(s) => {
                    &&& sent.len() == t.queue.len()
                    &&& forall|i: int|
                        0 <= i < t.queue.len() ==> sent[i] == sealed(
                            SendState {
                                counter: ((s.counter + i) % 0x1_0000_0000_0000_0000) as u64,
                                ..s
                            },
                            #[trigger] t.queue[i],
                        )
                    &&& t2.queue.len() == 0
                    &&& t2.handshake == t.handshake
                    &&& t2.session == Some(
                        SendState {
                            counter: ((s.counter + t.queue.len()) % 0x1_0000_0000_0000_0000) as u64,
                            ..s
                        },
                    )
                },
                None => {
                    let n = t.queue.len();
                    let moved = if t.handshake {
                        1int
                    } else if n >= 2 {
                        2int
                    } else {
                        0int
                    };
                    &&& sent.len() == (if t.handshake {
                        0nat
                    } else {
                        1nat
                    })
                    &&& sent.len() == 1 ==> sent[0].len() == 148 && sent[0].take(4) == seq![1u8, 0, 0, 0]
                    &&& t2.session is None && t2.handshake
                    &&& t2.queue == t.queue.skip(moved) + t.queue.take(moved)
                },
            }
        }),
{
    if t.queue.len() > 0 {
        if let Some(s) = t.session {
            assert forall|i: int| 0 <= i < t.queue.len() implies sent[i] == sealed(
                SendState {
                    counter: ((s.counter + i) % 0x1_0000_0000_0000_0000) as u64,
                    ..s
                },
                #[trigger] t.queue[i],
            ) by {
                assert(sent[i] == sealed(s.after(i as nat), t.queue[i]));
            }
        } else if t.handshake {
            assert(t2.queue =~= t.queue.skip(1) + t.queue.take(1));
        } else {
            assert(sent[0].take(4) =~= seq![1u8, 0, 0, 0]);
            if t.queue.len() >= 2 {
                assert(t2.queue =~= t.queue.skip(2) + t.queue.take(2));
            } else {
                assert(t2.queue =~= t.queue.skip(0) + t.queue.take(0));
            }
        }
    }
}

/// What comes of a message from the network. A data message whose counter is used up
/// changes nothing. An empty message only asks for queued packets. A handshake initiation
/// never brings a packet: it is answered with a response of 92 bytes, and then with what
/// was queued, or nothing happens. Anything else is settled as it was opened.
pub proof fn law_received_exact(
    t: TunnView,
    opened: (OutcomeView, TunnView),
    message: Seq<u8>,
    rx: Seq<Seq<u8>>,
    sent: Seq<Seq<u8>>,
    t2: TunnView,
)
    requires
        received(t, opened, message, rx, sent, t2),
    ensures
        message.len() == 0 ==> rx.len() == 0 && ({
            &&& t.queue.len() == 0 ==> sent.len() == 0 && t2 == t
            &&& t2 == (TunnView {
                queue: t2.queue,
                session: t2.session,
                handshake: t2.handshake,
                ..t
            })
            &&& t.queue.len() > 0 ==> match t.session {
                Some(s) => {
                    &&& sent.len() == t.queue.len()
                    &&& forall|i: int|
                        0 <= i < t.queue.len() ==> sent[i] == sealed(
                            SendState {
                                counter: ((s.counter + i) % 0x1_0000_0000_0000_0000) as u64,
                                ..s
                            },
                            #[trigger] t.queue[i],
                        )
                    &&& t2.queue.len() == 0
                    &&& t2.handshake == t.handshake
                    &&& t2.session == Some(
                        SendState {
                            counter: ((s.counter + t.queue.len()) % 0x1_0000_0000_0000_0000) as u64,
                            ..s
                        },
                    )
                },
                None => {
                    let n = t.queue.len();
                    let moved = if t.handshake {
                        1int
                    } else if n >= 2 {
                        2int
                    } else {
                        0int
                    };
                    &&& sent.len() == (if t.handshake {
                        0nat
                    } else {
                        1nat
                    })
                    &&& sent.len() == 1 ==> sent[0].len() == 148 && sent[0].take(4) == seq![1u8, 0, 0, 0]
                    &&& t2.session is None && t2.handshake
                    &&& t2.queue == t.queue.skip(moved) + t.queue.take(moved)
                },
            }
        }),
        message.len() >= 16 && message[0] == 4 && message[9] >= 252 && message[10] == 255 && message[11]
            == 255 && message[12] == 255 && message[13] == 255 && message[14] == 255 && message[15]
            == 255 ==> rx.len() == 0 && sent.len() == 0 && t2 == t,
        message.len() > 0 && message[0] == 1 ==> {
            &&& rx.len() == 0
            &&& sent.len() > 0 <==> opened.0 is Network
            &&& sent.len() == 0 ==> t2 == t
            &&& sent.len() > 0 ==> sent[0].len() == 92 && sent[0].take(4) == seq![2u8, 0, 0, 0]
                && message.len() == 148
            &&& sent.len() > 0 && t.queue.len() == 0 ==> sent.len() == 1
        },
        message.len() > 0 && message[0] != 1 && !is_spent(message) ==> settled(
            opened.1,
            opened.0,
            rx,
            sent,
            t2,
        ),
{
    law_spent_bytes(message);
    if message.len() == 0 {
        law_flushed_exact(t, sent, t2);
    } else if message[0] == 1 {
        let (out, mid) = choose|out: OutcomeView, mid: TunnView| #[trigger]
            decapsulated(t, message, out, mid) && is_outcome(opened, message, out, mid) && settled(
                mid,
                out,
                rx,
                sent,
                t2,
            );
        if let OutcomeView::Network(m) = out {
            assert(m.take(4) =~= seq![2u8, 0, 0, 0]);
        }
    }
}

/// A handshake initiation is a message of 148 bytes, and a data message is 32 bytes longer
/// than its packet; both tell what they are by their first four bytes.
pub proof fn law_message_bytes(m: Seq<u8>, packet: Seq<u8>)
    ensures
        is_initiation(m) <==> m.len() == 148 && m.take(4) == seq![1u8, 0, 0, 0],
        is_data(m, packet) <==> m.len() == packet.len() + 32 && m.take(4) == seq![4u8, 0, 0, 0],
{
    if m.len() >= 4 {
        let head = m.take(4);
        assert(head[0] == m[0] && head[1] == m[1] && head[2] == m[2] && head[3] == m[3]);
        if m[0] == 1 && m[1] == 0 && m[2] == 0 && m[3] == 0 {
            assert(head =~= seq![1u8, 0, 0, 0]);
        }
        if m[0] == 4 && m[1] == 0 && m[2] == 0 && m[3] == 0 {
            assert(head =~= seq![4u8, 0, 0, 0]);
        }
    }
}

} // verus!

//! Name resolution through the tunnel: queries that go to the DNS server, and the
//! requests that wait for its replies.
use crate::dns::{
    build_dns_query, dns_readable, first_record_address, is_readable, labels_read, law_parsed_id,
    law_query_bytes, law_query_names_the_host, law_reply_read, parse_dns_a, parsed, query, reply,
    AnswerName, Question, Record,
};
use crate::ipv4::Ipv4;
use crate::stack::{
    sockets_add_udp, sockets_udp, sockets_view, udp_bind, udp_new, udp_recv, udp_send_slice,
    udp_view, Endpoint, SocketsView, UdpSendFault, UdpView,
};
use crate::text::{joined, split};
use smoltcp::iface::{SocketHandle, SocketSet};
use vstd::multiset::Multiset;
use vstd::prelude::*;
use vstd::string::StringSliceAdditionalSpecFns;

verus! {

/// How many packets and how many bytes the DNS socket buffers in each direction.
pub const DNS_PACKETS: usize = 8;

pub const DNS_BUFFER: usize = 8192;

/// The local port of the DNS socket.
pub const DNS_LOCAL_PORT: u16 = 40000;

/// The port of a DNS server.
pub const DNS_PORT: u16 = 53;

/// The DNS socket as it is at first.
pub open spec fn fresh_dns_socket() -> UdpView {
    UdpView {
        port: DNS_LOCAL_PORT,
        inbox: Seq::empty(),
        outbox: Seq::empty(),
        packet_capacity: DNS_PACKETS as nat,
        payload_capacity: DNS_BUFFER as nat,
        places: DNS_PACKETS as nat,
        free: DNS_BUFFER as nat,
        run: DNS_BUFFER as nat,
    }
}

/// Adds the socket that queries are sent from.
pub fn add_dns_socket(sockets: &mut SocketSet<'static>) -> (handle: SocketHandle)
    requires
        sockets_view(*old(sockets)).growable,
    ensures
        !sockets_view(*old(sockets)).has(handle),
        sockets_view(*final(sockets)) == (SocketsView {
            udp: sockets_view(*old(sockets)).udp.insert(handle, fresh_dns_socket()),
            ..sockets_view(*old(sockets))
        }),
        ({
            let sock = sockets_view(*final(sockets)).udp[handle];
            &&& sock.port == 40000
            &&& sock.inbox.len() == 0 && sock.outbox.len() == 0
            &&& sock.packet_capacity == 8 && sock.payload_capacity == 8192
            &&& sock.takes(8192) && !sock.takes(8193)
        }),
{
    let mut sock = udp_new(DNS_PACKETS, DNS_BUFFER);
    let _ = udp_bind(&mut sock, DNS_LOCAL_PORT);
    sockets_add_udp(sockets, sock)
}

/// The requests under way. Each is known by the identifier of its query.
pub struct Resolver<D> {
    /// The identifier of the last query.
    pub last_id: u16,
    /// Whom to tell of the reply to each query, oldest first.
    pub pending: Vec<(u16, D)>,
}

/// The identifier of the query that comes `n` queries later.
pub open spec fn id_after(id: u16, n: nat) -> u16 {
    ((id + n) % 65536) as u16
}

/// What sending a query to the DNS server makes of the DNS socket, and why the socket
/// refuses it, where it does.
pub open spec fn asked(sock: UdpView, server: Ipv4, name: Seq<u8>, id: u16) -> (
    UdpView,
    Option<UdpSendFault>,
) {
    let q = query(name, id);
    if sock.port == 0 || server.spec_is_unspecified() {
        (sock, Some(UdpSendFault::Unaddressable))
    } else if sock.takes(q.len()) {
        (sock.with_sent(q, Endpoint { ip: server, port: DNS_PORT }), None)
    } else {
        (sock.with_refused(q.len()), Some(UdpSendFault::BufferFull))
    }
}

/// Where the first request with an identifier stands, or their number where none has
/// it.
pub open spec fn position<D>(pending: Seq<(u16, D)>, id: u16) -> int
    decreases pending.len(),
{
    if pending.len() == 0 || pending[0].0 == id {
        0
    } else {
        1 + position(pending.drop_first(), id)
    }
}

/// What becomes of requests and of the payloads that arrived.
pub struct Answered<D> {
    /// Whom to tell what, in order.
    pub answers: Seq<(D, Option<Ipv4>)>,
    pub pending: Seq<(u16, D)>,
    pub inbox: Seq<Seq<u8>>,
    /// Whether a payload could not be read.
    pub unreadable: bool,
}

/// What reading the payloads that arrived makes of requests. Each reply answers the
/// first request with its identifier, and one that has none is passed over. Reading
/// ends with a payload that cannot be read.
pub open spec fn answered<D>(pending: Seq<(u16, D)>, inbox: Seq<Seq<u8>>) -> Answered<D>
    decreases inbox.len(),
{
    if inbox.len() == 0 {
        Answered { answers: Seq::empty(), pending, inbox, unreadable: false }
    } else if !is_readable(inbox[0]) {
        Answered { answers: Seq::empty(), pending, inbox: inbox.drop_first(), unreadable: true }
    } else {
        match parsed(inbox[0]) {
            Some((id, ip)) if position(pending, id) < pending.len() => {
                let p = position(pending, id);
                let after = answered(pending.remove(p), inbox.drop_first());
                Answered { answers: seq![(pending[p].1, ip)] + after.answers, ..after }
            },
            _ => answered(pending, inbox.drop_first()),
        }
    }
}

/// What came of reading the payloads that arrived.
pub struct Answers<D> {
    /// Whom to tell which address, or that there is none.
    pub answers: Vec<(D, Option<Ipv4>)>,
    /// Whether a payload could not be read. Those behind it are still to be read.
    pub unreadable: bool,
}

proof fn lemma_position<D>(pending: Seq<(u16, D)>, id: u16)
    ensures
        0 <= position(pending, id) <= pending.len(),
        forall|j: int| 0 <= j < position(pending, id) ==> (#[trigger] pending[j]).0 != id,
        position(pending, id) < pending.len() ==> pending[position(pending, id)].0 == id,
    decreases pending.len(),
{
    if pending.len() == 0 || pending[0].0 == id {
    } else {
        lemma_position(pending.drop_first(), id);
        assert forall|j: int| 0 <= j < position(pending, id) implies (#[trigger] pending[j]).0
            != id by {
            if j > 0 {
                assert(pending[j] == pending.drop_first()[j - 1]);
            }
        }
    }
}

impl<D> Resolver<D> {
    pub fn new() -> (resolver: Self)
        ensures
            resolver.last_id == 1,
            resolver.pending@.len() == 0,
    {
        Resolver { last_id: 1, pending: Vec::new() }
    }

    /// Sends a query for the address of `name` to the DNS server. Whom to tell of the
    /// reply waits for it, or comes back with the reason where the socket refuses the
    /// query.
    pub fn resolve(
        &mut self,
        sockets: &mut SocketSet<'static>,
        handle: SocketHandle,
        server: Ipv4,
        name: &str,
        resp: D,
    ) -> (r: Result<(), (D, UdpSendFault)>)
        requires
            sockets_view(*old(sockets)).udp.contains_key(handle),
        ensures
            final(self).last_id == id_after(old(self).last_id, 1),
            ({
                let set = sockets_view(*old(sockets));
                let (sock, refusal) = asked(
                    set.udp[handle],
                    server,
                    name.spec_bytes(),
                    final(self).last_id,
                );
                &&& sockets_view(*final(sockets)) == (SocketsView {
                    udp: set.udp.insert(handle, sock),
                    ..set
                })
                &&& match refusal {
                    None => r is Ok && final(self).pending@ == old(self).pending@.push(
                        (final(self).last_id, resp),
                    ),
                    Some(fault) => r == Err::<(), (D, UdpSendFault)>((resp, fault))
                        && final(self).pending@ == old(self).pending@,
                }
            }),
            final(self).last_id == (old(self).last_id + 1) % 65536,
            ({
                let sock = sockets_view(*old(sockets)).udp[handle];
                let sock2 = sockets_view(*final(sockets)).udp[handle];
                let n = old(self).pending@.len() as int;
                &&& r is Ok <==> sock.port != 0 && server.a + server.b + server.c + server.d != 0
                    && sock.takes(name.spec_bytes().len() + 18)
                &&& r is Ok ==> {
                    let (q, to) = sock2.outbox.last();
                    &&& sock2.outbox.drop_last() == sock.outbox
                    &&& to == (Endpoint { ip: server, port: 53 })
                    &&& q.len() == name.spec_bytes().len() + 18
                    &&& q[0] * 256 + q[1] == final(self).last_id
                    &&& (forall|i: int|
                        0 <= i < split(name.spec_bytes(), 46).len() ==> 1 <= #[trigger] split(
                            name.spec_bytes(),
                            46,
                        )[i].len() <= 255) ==> joined(labels_read(q, 12), 46) == name.spec_bytes()
                    &&& final(self).pending@.len() == n + 1
                    &&& final(self).pending@[n] == (final(self).last_id, resp)
                    &&& final(self).pending@.take(n) == old(self).pending@
                }
                &&& r is Err ==> sock2.outbox == sock.outbox && final(self).pending@
                    == old(self).pending@
                &&& sock2.inbox == sock.inbox && sock2.port == sock.port
            }),
    {
        proof {
            law_query_bytes(name.spec_bytes(), id_after(self.last_id, 1));
            let labels = split(name.spec_bytes(), 46);
            if forall|i: int| 0 <= i < labels.len() ==> 1 <= #[trigger] labels[i].len() <= 255 {
                law_query_names_the_host(name.spec_bytes(), id_after(self.last_id, 1));
            }
        }
        self.last_id = self.last_id.wrapping_add(1);
        let q = build_dns_query(name, self.last_id);
        let sock = sockets_udp(sockets, handle);
        match udp_send_slice(sock, q.as_slice(), server, DNS_PORT) {
            Ok(()) => {
                self.pending.push((self.last_id, resp));
                Ok(())
            },
            Err(fault) => Err((resp, fault)),
        }
    }

    /// Where the first request with an identifier stands.
    fn find(&self, id: u16) -> (r: Option<usize>)
        ensures
            match r {
                Some(p) => p == position(self.pending@, id) && p < self.pending@.len(),
                None => position(self.pending@, id) == self.pending@.len(),
            },
    {
        let mut i: usize = 0;
        proof {
            lemma_position(self.pending@, id);
        }
        while i < self.pending.len()
            invariant
                i <= self.pending@.len(),
                forall|j: int| 0 <= j < i ==> (#[trigger] self.pending@[j]).0 != id,
                0 <= position(self.pending@, id) <= self.pending@.len(),
                forall|j: int|
                    0 <= j < position(self.pending@, id) ==> (#[trigger] self.pending@[j]).0 != id,
                position(self.pending@, id) < self.pending@.len() ==> self.pending@[position(
                    self.pending@,
                    id,
                )].0 == id,
            decreases self.pending@.len() - i,
        {
            if self.pending[i].0 == id {
                assert(self.pending@[i as int].0 == id);
                return Some(i);
            }
            i = i + 1;
        }
        None
    }

    /// Reads the payloads that arrived at the DNS socket.
    pub fn take_answers(&mut self, sockets: &mut SocketSet<'static>, handle: SocketHandle) -> (out:
        Answers<D>)
        requires
            sockets_view(*old(sockets)).udp.contains_key(handle),
        ensures
            final(self).last_id == old(self).last_id,
            ({
                let set = sockets_view(*old(sockets));
                let sock = set.udp[handle];
                let all = answered(old(self).pending@, sock.inbox);
                &&& out.answers@ == all.answers
                &&& out.unreadable == all.unreadable
                &&& final(self).pending@ == all.pending
                &&& sockets_view(*final(sockets)) == (SocketsView {
                    udp: set.udp.insert(handle, UdpView { inbox: all.inbox, ..sock }),
                    ..set
                })
            }),
            out.answers@.len() + final(self).pending@.len() == old(self).pending@.len(),
            out.answers@.len() <= sockets_view(*old(sockets)).udp[handle].inbox.len(),
            !out.unreadable ==> sockets_view(*final(sockets)).udp[handle].inbox.len() == 0,
    {
        proof {
            law_each_request_once(self.pending@, sockets_view(*sockets).udp[handle].inbox);
            law_reading_ends(self.pending@, sockets_view(*sockets).udp[handle].inbox);
        }
        let sock = sockets_udp(sockets, handle);
        let ghost v0 = udp_view(*sock);
        let ghost p0 = self.pending@;
        let ghost all = answered(p0, v0.inbox);
        let mut answers: Vec<(D, Option<Ipv4>)> = Vec::new();
        let mut more = true;
        let mut unreadable = false;
        assert(answers@ + all.answers =~= all.answers);
        while more
            invariant
                all == answered(p0, v0.inbox),
                self.last_id == old(self).last_id,
                udp_view(*sock) == (UdpView { inbox: udp_view(*sock).inbox, ..v0 }),
                more ==> !unreadable && ({
                    let rest = answered(self.pending@, udp_view(*sock).inbox);
                    all == (Answered { answers: answers@ + rest.answers, ..rest })
                }),
                !more ==> all == (Answered {
                    answers: answers@,
                    pending: self.pending@,
                    inbox: udp_view(*sock).inbox,
                    unreadable,
                }),
            decreases
                    if more {
                        1int
                    } else {
                        0int
                    },
                    udp_view(*sock).inbox.len(),
        {
            let ghost inbox = udp_view(*sock).inbox;
            let ghost pending = self.pending@;
            let ghost had = answers@;
            match udp_recv(sock) {
                None => {
                    more = false;
                    assert(had + Seq::<(D, Option<Ipv4>)>::empty() =~= had);
                },
                Some(data) => {
                    if !dns_readable(data.as_slice()) {
                        more = false;
                        unreadable = true;
                        assert(had + Seq::<(D, Option<Ipv4>)>::empty() =~= had);
                    } else if let Some((id, ip)) = parse_dns_a(data.as_slice()) {
                        if let Some(p) = self.find(id) {
                            let (_, resp) = self.pending.remove(p);
                            answers.push((resp, ip));
                            proof {
                                let rest = answered(self.pending@, inbox.drop_first());
                                assert(had + (seq![(resp, ip)] + rest.answers) =~= answers@
                                    + rest.answers);
                            }
                        }
                    }
                },
            }
        }
        Answers { answers, unreadable }
    }
}

/// Queries that are fewer than 65536 apart have different identifiers.
pub proof fn law_ids_distinct(id: u16, i: nat, j: nat)
    requires
        i < j < i + 65536,
    ensures
        id_after(id, i) != id_after(id, j),
{
}

/// The query of the `k`-th request, where the DNS socket has room for it, is put behind
/// those that wait to be sent to the DNS server, with the identifier `k + 1`.
pub proof fn law_kth_query(k: nat, sock: UdpView, server: Ipv4, name: Seq<u8>)
    requires
        k >= 1,
        sock.port == DNS_LOCAL_PORT,
        !server.spec_is_unspecified(),
        sock.takes(query(name, ((k + 1) % 65536) as u16).len()),
    ensures
        id_after(1, k) == (k + 1) % 65536,
        id_after(id_after(1, (k - 1) as nat), 1) == id_after(1, k),
        ({
            let (sock2, refusal) = asked(sock, server, name, id_after(1, k));
            &&& refusal is None
            &&& sock2.port == DNS_LOCAL_PORT
            &&& sock2.outbox == sock.outbox.push(
                (
                    query(name, ((k + 1) % 65536) as u16),
                    Endpoint { ip: server, port: DNS_PORT },
                ),
            )
        }),
{
}

/// Who is told something, in order.
pub open spec fn told<D>(answers: Seq<(D, Option<Ipv4>)>) -> Seq<D> {
    answers.map_values(|a: (D, Option<Ipv4>)| a.0)
}

/// Who waits for a reply, in order.
pub open spec fn waiting<D>(pending: Seq<(u16, D)>) -> Seq<D> {
    pending.map_values(|p: (u16, D)| p.1)
}

/// No request is answered twice and none is lost: each is answered or still waits.
pub proof fn law_each_request_once<D>(pending: Seq<(u16, D)>, inbox: Seq<Seq<u8>>)
    ensures
        answered(pending, inbox).answers.len() + answered(pending, inbox).pending.len()
            == pending.len(),
        told(answered(pending, inbox).answers).to_multiset().add(
            waiting(answered(pending, inbox).pending).to_multiset(),
        ) == waiting(pending).to_multiset(),
    decreases inbox.len(),
{
    let all = answered(pending, inbox);
    if inbox.len() == 0 || !is_readable(inbox[0]) {
        assert(told(all.answers) =~= Seq::empty());
        assert(told(all.answers).to_multiset().add(
            waiting(all.pending).to_multiset(),
        ) =~= waiting(pending).to_multiset()) by {
            broadcast use vstd::seq_lib::group_to_multiset_ensures;

        }
    } else {
        match parsed(inbox[0]) {
            Some((id, ip)) if position(pending, id) < pending.len() => {
                lemma_position(pending, id);
                let p = position(pending, id);
                let left = pending.remove(p);
                law_each_request_once(left, inbox.drop_first());
                let after = answered(left, inbox.drop_first());
                let d = pending[p].1;
                let after_told = told(after.answers);
                assert(told(all.answers) =~= seq![d] + after_told);
                assert(waiting(left) =~= waiting(pending).remove(p));
                broadcast use vstd::seq_lib::group_to_multiset_ensures;

                vstd::seq_lib::lemma_multiset_commutative(seq![d], after_told);
                assert(seq![d] =~= Seq::<D>::empty().push(d));
                let all_waiting = waiting(pending);
                let whole = all_waiting.to_multiset();
                assert(all_waiting[p] == d);
                assert(all_waiting.contains(d));
                assert(waiting(left).to_multiset() =~= whole.remove(d));
                assert(seq![d].to_multiset() =~= Multiset::singleton(d));
                let t = after_told.to_multiset();
                let w = waiting(after.pending).to_multiset();
                assert(t.add(w) == whole.remove(d));
                assert(told(all.answers).to_multiset() == Multiset::singleton(d).add(t));
                assert(whole.count(d) > 0);
                assert forall|x: D| Multiset::singleton(d).add(t).add(w).count(x)
                    == #[trigger] whole.count(x) by {
                    assert(t.add(w).count(x) == whole.remove(d).count(x));
                }
                assert(Multiset::singleton(d).add(t).add(w) =~= whole);
            },
            _ => {
                law_each_request_once(pending, inbox.drop_first());
            },
        }
    }
}

/// A reply to the query of a request, where no other request has its identifier, tells
/// that request the address in the first answer that holds one, or that there is none,
/// and no other request is told anything.
pub proof fn law_reply_answers_its_request<D>(
    pending: Seq<(u16, D)>,
    k: int,
    flags: u16,
    questions: Seq<Question>,
    records: Seq<Record>,
    other_counts: Seq<u8>,
    rest: Seq<u8>,
)
    requires
        0 <= k < pending.len(),
        forall|j: int| 0 <= j < pending.len() && j != k ==> (#[trigger] pending[j]).0 != pending[k].0,
        questions.len() <= 65535,
        records.len() <= 65535,
        forall|i: int|
            0 <= i < questions.len() ==> (#[trigger] questions[i]).type_and_class.len() == 4 && (
            forall|j: int|
                0 <= j < questions[i].labels.len() ==> 1 <= #[trigger] questions[i].labels[j].len()
                    <= 255),
        forall|i: int|
            0 <= i < records.len() ==> (#[trigger] records[i]).class_and_ttl.len() == 6
                && records[i].data.len() <= 65535 && match records[i].name {
                AnswerName::Pointer(p) => p.len() == 2 && p[0] >= 0xc0,
                AnswerName::Labels(labels) => (labels.len() > 0 ==> labels[0].len() < 0xc0) && (
                forall|j: int| 0 <= j < labels.len() ==> 1 <= #[trigger] labels[j].len() <= 255),
            },
        other_counts.len() == 4,
    ensures
        answered(
            pending,
            seq![reply(pending[k].0, flags, questions, records, other_counts, rest)],
        ) == (Answered {
            answers: seq![(pending[k].1, first_record_address(records))],
            pending: pending.remove(k),
            inbox: Seq::empty(),
            unreadable: false,
        }),
{
    let message = reply(pending[k].0, flags, questions, records, other_counts, rest);
    let inbox = seq![message];
    law_reply_read(pending[k].0, flags, questions, records, other_counts, rest);
    lemma_position(pending, pending[k].0);
    assert(position(pending, pending[k].0) == k);
    assert(inbox.drop_first() =~= Seq::empty());
    let after = answered(pending.remove(k), inbox.drop_first());
    assert(seq![(pending[k].1, first_record_address(records))] + after.answers =~= seq![
        (pending[k].1, first_record_address(records)),
    ]);
}

/// At most one request is answered for each payload, and payloads are left only behind
/// one that cannot be read.
pub proof fn law_reading_ends<D>(pending: Seq<(u16, D)>, inbox: Seq<Seq<u8>>)
    ensures
        ({
            let all = answered(pending, inbox);
            &&& all.answers.len() + all.inbox.len() <= inbox.len()
            &&& all.inbox == inbox.skip(inbox.len() - all.inbox.len())
            &&& !all.unreadable ==> all.inbox.len() == 0
            &&& all.unreadable ==> all.inbox.len() < inbox.len() && !is_readable(
                inbox[inbox.len() - all.inbox.len() - 1],
            )
            &&& forall|i: int|
                0 <= i < inbox.len() - all.inbox.len() - (if all.unreadable {
                    1int
                } else {
                    0int
                }) ==> is_readable(#[trigger] inbox[i])
        }),
    decreases inbox.len(),
{
    let all = answered(pending, inbox);
    let rest = inbox.drop_first();
    if inbox.len() == 0 {
        assert(inbox.skip(0) =~= inbox);
    } else if !is_readable(inbox[0]) {
        assert(inbox.skip(1) =~= rest);
    } else {
        let left = match parsed(inbox[0]) {
            Some((id, ip)) if position(pending, id) < pending.len() => pending.remove(
                position(pending, id),
            ),
            _ => pending,
        };
        law_reading_ends(left, rest);
        assert(all.inbox == answered(left, rest).inbox);
        assert(rest.skip(rest.len() - all.inbox.len()) =~= inbox.skip(
            inbox.len() - all.inbox.len(),
        ));
        assert forall|i: int|
            0 <= i < inbox.len() - all.inbox.len() - (if all.unreadable {
                1int
            } else {
                0int
            }) implies is_readable(#[trigger] inbox[i]) by {
            if i > 0 {
                assert(inbox[i] == rest[i - 1]);
            }
        }
    }
}

/// One payload that can be read answers the first request that has the identifier in its
/// first two bytes, with the address that is read in it, and no other. One that cannot be
/// read, one shorter than a header and one whose identifier no request has answer none.
pub proof fn law_one_payload<D>(pending: Seq<(u16, D)>, payload: Seq<u8>, k: int)
    requires
        0 <= k <= pending.len(),
        payload.len() >= 12 ==> forall|j: int|
            0 <= j < k ==> (#[trigger] pending[j]).0 != payload[0] * 256 + payload[1],
        payload.len() >= 12 && k < pending.len() ==> pending[k].0 == payload[0] * 256 + payload[1],
    ensures
        ({
            let all = answered(pending, seq![payload]);
            &&& all.inbox.len() == 0
            &&& all.unreadable == !is_readable(payload)
            &&& if is_readable(payload) && payload.len() >= 12 && k < pending.len() {
                &&& all.answers.len() == 1
                &&& all.answers[0].0 == pending[k].1
                &&& parsed(payload) == Some((pending[k].0, all.answers[0].1))
                &&& all.pending == pending.remove(k)
            } else {
                all.answers.len() == 0 && all.pending == pending
            }
        }),
{
    let inbox = seq![payload];
    assert(inbox.drop_first() =~= Seq::empty());
    law_reading_ends(pending, inbox);
    assert(inbox[0] == payload);
    let none = answered(pending, inbox.drop_first());
    assert(none.answers.len() == 0 && none.pending == pending && none.inbox.len() == 0);
    assert(!none.unreadable);
    if payload.len() < 12 {
        law_parsed_id(payload);
    } else {
        law_parsed_id(payload);
        let id = parsed(payload).unwrap().0;
        lemma_position(pending, id);
        let p = position(pending, id);
        if p < k {
            assert(pending[p].0 != payload[0] * 256 + payload[1]);
        } else if k < p {
            assert(pending[k].0 != id);
        }
        if is_readable(payload) && k < pending.len() {
            let after = answered(pending.remove(k), inbox.drop_first());
            assert(after.answers.len() == 0 && after.inbox.len() == 0 && !after.unreadable);
            assert(seq![(pending[k].1, parsed(payload).unwrap().1)] + after.answers =~= seq![
                (pending[k].1, parsed(payload).unwrap().1),
            ]);
        }
    }
}

/// Payloads are read one after the other: reading some and then others is reading all of
/// them, as long as each can be read, and a payload that cannot be read leaves those
/// behind it.
pub proof fn law_payloads_in_order<D>(pending: Seq<(u16, D)>, a: Seq<Seq<u8>>, b: Seq<Seq<u8>>)
    ensures
        ({
            let first = answered(pending, a);
            let then = answered(first.pending, b);
            let all = answered(pending, a + b);
            if first.unreadable {
                &&& all.answers == first.answers
                &&& all.pending == first.pending
                &&& all.inbox == first.inbox + b
                &&& all.unreadable
            } else {
                &&& all.answers == first.answers + then.answers
                &&& all.pending == then.pending
                &&& all.inbox == then.inbox
                &&& all.unreadable == then.unreadable
            }
        }),
    decreases a.len(),
{
    let all = answered(pending, a + b);
    if a.len() == 0 {
        assert(a + b =~= b);
        let then = answered(pending, b);
        assert(Seq::<(D, Option<Ipv4>)>::empty() + then.answers =~= then.answers);
    } else {
        assert((a + b)[0] == a[0]);
        assert((a + b).drop_first() =~= a.drop_first() + b);
        if is_readable(a[0]) {
            match parsed(a[0]) {
                Some((id, ip)) if position(pending, id) < pending.len() => {
                    let p = position(pending, id);
                    let left = pending.remove(p);
                    law_payloads_in_order(left, a.drop_first(), b);
                    let first = answered(left, a.drop_first());
                    let then = answered(first.pending, b);
                    assert(seq![(pending[p].1, ip)] + (first.answers + then.answers) =~= seq![
                        (pending[p].1, ip),
                    ] + first.answers + then.answers);
                },
                _ => {
                    law_payloads_in_order(pending, a.drop_first(), b);
                },
            }
        }
    }
}

/// The first request with an identifier is found, and their number where none has it.
pub proof fn law_first_request<D>(pending: Seq<(u16, D)>, id: u16)
    ensures
        0 <= position(pending, id) <= pending.len(),
        forall|j: int| 0 <= j < position(pending, id) ==> (#[trigger] pending[j]).0 != id,
        position(pending, id) < pending.len() ==> pending[position(pending, id)].0 == id,
{
    lemma_position(pending, id);
}

/// The identifiers of queries follow each other, and 0 comes after 65535.
pub proof fn law_ids_follow(id: u16, n: nat)
    ensures
        id_after(id, n) == (id + n) % 65536,
{
}

/// A query goes to port 53 of the DNS server, behind the payloads that wait to be sent,
/// or nothing is sent. Nothing is sent exactly where the socket has no port, the server
/// no address or the socket no room.
pub proof fn law_query_sent_or_not(sock: UdpView, server: Ipv4, name: Seq<u8>, id: u16)
    ensures
        ({
            let (sock2, refusal) = asked(sock, server, name, id);
            &&& refusal is None <==> sock.port != 0 && server.a + server.b + server.c + server.d != 0
                && sock.takes(name.len() + 18)
            &&& refusal is None ==> sock2.outbox == sock.outbox.push(
                (query(name, id), Endpoint { ip: server, port: 53 }),
            )
            &&& refusal is Some ==> sock2.outbox == sock.outbox
            &&& sock2.inbox == sock.inbox && sock2.port == sock.port
            &&& refusal matches Some(fault) ==> (fault == UdpSendFault::BufferFull <==> sock.port
                != 0 && server.a + server.b + server.c + server.d != 0)
        }),
{
    law_query_bytes(name, id);
}

} // verus!

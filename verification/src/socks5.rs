//! The SOCKS5 handshake of the local proxy: no authentication, `CONNECT` only.
//!
//! [`Handshake`] says how many bytes to read from the client next, takes them, and says
//! what to do: read on, write something, give up, or connect.
use crate::dns::{be16, be16_bytes};
use crate::ipv4::{is_no_ipv4, parse_ipv4, Ipv4};
use crate::text::{lossy, utf8_lossy};
use vstd::prelude::*;
use vstd::string::StringSliceAdditionalSpecFns;
use vstd::utf8::{decode_utf8, valid_utf8};

verus! {

/// Where a client wants to be connected to.
pub enum Target {
    Ip(Ipv4),
    Name(String),
}

/// The view of a [`Target`].
pub enum TargetView {
    Ip(Ipv4),
    Name(Seq<char>),
}

impl View for Target {
    type V = TargetView;

    open spec fn view(&self) -> TargetView {
        match self {
            Target::Ip(ip) => TargetView::Ip(*ip),
            Target::Name(name) => TargetView::Name(name@),
        }
    }
}

/// What the next bytes of the client are.
#[derive(Clone, Copy, PartialEq, Eq, Structural)]
pub enum Phase {
    Greeting,
    /// That many authentication methods.
    Methods(u8),
    Request,
    Address,
    NameLength,
    /// A name of that many bytes.
    Name(u8),
    Port,
    /// There are none: the handshake is over.
    Over,
}

impl Phase {
    /// How many bytes to read next.
    pub open spec fn spec_wants(self) -> nat {
        match self {
            Phase::Greeting => 2,
            Phase::Methods(n) => n as nat,
            Phase::Request => 4,
            Phase::Address => 4,
            Phase::NameLength => 1,
            Phase::Name(n) => n as nat,
            Phase::Port => 2,
            Phase::Over => 0,
        }
    }

    /// How many phases can follow.
    pub open spec fn spec_left(self) -> nat {
        match self {
            Phase::Greeting => 6,
            Phase::Methods(_) => 5,
            Phase::Request => 4,
            Phase::Address => 3,
            Phase::NameLength => 3,
            Phase::Name(_) => 2,
            Phase::Port => 1,
            Phase::Over => 0,
        }
    }
}

/// Why a client was turned away.
#[derive(Clone, Copy, Debug, PartialEq, Eq, Structural)]
pub enum Refusal {
    /// It does not speak version 5.
    NotSocks5,
    /// It wants something else than a connection.
    OnlyConnect,
    /// It gives an address of an unknown type.
    BadAddressType,
}

/// What to do next.
pub enum Action {
    /// Read on.
    Read,
    /// Write these bytes, then read on.
    Reply(Vec<u8>),
    /// Write these bytes, if there are any, and hang up.
    Refuse(Vec<u8>, Refusal),
    /// Connect to this target and port, and say how that went.
    Connect(Target, u16),
}

/// The view of an [`Action`].
pub enum ActionView {
    Read,
    Reply(Seq<u8>),
    Refuse(Seq<u8>, Refusal),
    Connect(TargetView, u16),
}

impl View for Action {
    type V = ActionView;

    open spec fn view(&self) -> ActionView {
        match self {
            Action::Read => ActionView::Read,
            Action::Reply(bytes) => ActionView::Reply(bytes@),
            Action::Refuse(bytes, why) => ActionView::Refuse(bytes@, *why),
            Action::Connect(target, port) => ActionView::Connect(target@, *port),
        }
    }
}

/// The answer to a request, with a reply code and no bound address.
pub open spec fn request_reply(code: u8) -> Seq<u8> {
    seq![5u8, code, 0, 1, 0, 0, 0, 0, 0, 0]
}

/// The answer to the greeting: no authentication.
pub open spec fn greeting_reply() -> Seq<u8> {
    seq![5u8, 0]
}

/// Reply codes.
pub const SUCCEEDED: u8 = 0;

pub const HOST_UNREACHABLE: u8 = 4;

pub const COMMAND_NOT_SUPPORTED: u8 = 7;

pub const ADDRESS_TYPE_NOT_SUPPORTED: u8 = 8;

/// What the bytes that were read lead to: the next phase, the target so far and what to
/// do. The version of the request and its reserved byte do not matter.
pub open spec fn step(phase: Phase, target: TargetView, b: Seq<u8>) -> (
    Phase,
    TargetView,
    ActionView,
) {
    match phase {
        Phase::Greeting => if b[0] != 5 {
            (Phase::Over, target, ActionView::Refuse(Seq::empty(), Refusal::NotSocks5))
        } else {
            (Phase::Methods(b[1]), target, ActionView::Read)
        },
        Phase::Methods(_) => (Phase::Request, target, ActionView::Reply(greeting_reply())),
        Phase::Request => if b[1] != 1 {
            (
                Phase::Over,
                target,
                ActionView::Refuse(request_reply(COMMAND_NOT_SUPPORTED), Refusal::OnlyConnect),
            )
        } else if b[3] == 1 {
            (Phase::Address, target, ActionView::Read)
        } else if b[3] == 3 {
            (Phase::NameLength, target, ActionView::Read)
        } else {
            (
                Phase::Over,
                target,
                ActionView::Refuse(
                    request_reply(ADDRESS_TYPE_NOT_SUPPORTED),
                    Refusal::BadAddressType,
                ),
            )
        },
        Phase::Address => (
            Phase::Port,
            TargetView::Ip(Ipv4 { a: b[0], b: b[1], c: b[2], d: b[3] }),
            ActionView::Read,
        ),
        Phase::NameLength => (Phase::Name(b[0]), target, ActionView::Read),
        Phase::Name(_) => (Phase::Port, TargetView::Name(lossy(b)), ActionView::Read),
        Phase::Port => (Phase::Over, target, ActionView::Connect(target, be16(b, 0) as u16)),
        Phase::Over => (Phase::Over, target, ActionView::Read),
    }
}

/// The answer to a request.
fn make_reply(code: u8) -> (bytes: Vec<u8>)
    ensures
        bytes@ == request_reply(code),
        bytes@ == seq![5u8, code, 0, 1, 0, 0, 0, 0, 0, 0],
{
    let bytes: Vec<u8> = vec![5, code, 0, 1, 0, 0, 0, 0, 0, 0];
    assert(bytes@ =~= request_reply(code));
    bytes
}

/// What the client is told of the connection that it asked for.
pub fn connect_reply(connected: bool) -> (bytes: Vec<u8>)
    ensures
        bytes@ == request_reply(
            if connected {
                SUCCEEDED
            } else {
                HOST_UNREACHABLE
            },
        ),
        connected ==> bytes@ == seq![5u8, 0, 0, 1, 0, 0, 0, 0, 0, 0],
        !connected ==> bytes@ == seq![5u8, 4, 0, 1, 0, 0, 0, 0, 0, 0],
{
    if connected {
        make_reply(SUCCEEDED)
    } else {
        make_reply(HOST_UNREACHABLE)
    }
}

/// The handshake with one client.
pub struct Handshake {
    pub phase: Phase,
    /// The target, once the phase is [`Phase::Port`].
    pub target: Target,
}

impl Handshake {
    /// A handshake before its greeting, where [`served`] begins.
    pub fn new() -> (h: Self)
        ensures
            h.phase == Phase::Greeting,
            h.target@ == TargetView::Ip(Ipv4 { a: 0, b: 0, c: 0, d: 0 }),
    {
        Handshake { phase: Phase::Greeting, target: Target::Ip(Ipv4::new(0, 0, 0, 0)) }
    }

    /// How many bytes to read next.
    pub fn wants(&self) -> (n: usize)
        ensures
            n == self.phase.spec_wants(),
    {
        match self.phase {
            Phase::Greeting => 2,
            Phase::Methods(n) => n as usize,
            Phase::Request => 4,
            Phase::Address => 4,
            Phase::NameLength => 1,
            Phase::Name(n) => n as usize,
            Phase::Port => 2,
            Phase::Over => 0,
        }
    }

    /// Takes the bytes that were read, as many as it asked for.
    pub fn feed(&mut self, b: &[u8]) -> (action: Action)
        requires
            b@.len() == old(self).phase.spec_wants(),
        ensures
            ({
                let (phase, target, todo) = step(old(self).phase, old(self).target@, b@);
                &&& final(self).phase == phase
                &&& action@ == todo
                &&& phase != Phase::Over ==> final(self).target@ == target
            }),
            old(self).phase is Name && valid_utf8(b@) ==> final(self).target@ == TargetView::Name(
                decode_utf8(b@),
            ),
            match action {
                Action::Read => true,
                Action::Reply(bytes) => old(self).phase is Methods && bytes@ == seq![5u8, 0],
                Action::Refuse(bytes, Refusal::NotSocks5) => old(self).phase is Greeting && b@[0] != 5
                    && bytes@.len() == 0,
                Action::Refuse(bytes, Refusal::OnlyConnect) => old(self).phase is Request && b@[1]
                    != 1 && bytes@ == seq![5u8, 7, 0, 1, 0, 0, 0, 0, 0, 0],
                Action::Refuse(bytes, Refusal::BadAddressType) => old(self).phase is Request && b@[1]
                    == 1 && b@[3] != 1 && b@[3] != 3 && bytes@ == seq![
                    5u8,
                    8,
                    0,
                    1,
                    0,
                    0,
                    0,
                    0,
                    0,
                    0,
                ],
                Action::Connect(target, port) => old(self).phase is Port && target@
                    == old(self).target@ && port == b@[0] * 256 + b@[1],
            },
            old(self).phase is Greeting && b@[0] == 5 ==> final(self).phase == Phase::Methods(b@[1]),
            old(self).phase is Methods ==> final(self).phase is Request && action is Reply,
            old(self).phase is Request && b@[1] == 1 && b@[3] == 1 ==> final(self).phase is Address,
            old(self).phase is Request && b@[1] == 1 && b@[3] == 3 ==> final(self).phase
                is NameLength,
            old(self).phase is Address ==> final(self).phase is Port && final(self).target@
                == TargetView::Ip(Ipv4 { a: b@[0], b: b@[1], c: b@[2], d: b@[3] }),
            old(self).phase is NameLength ==> final(self).phase == Phase::Name(b@[0]),
            old(self).phase is Name ==> final(self).phase is Port && final(self).target is Name,
            old(self).phase is Port ==> action is Connect,
            action is Connect || action is Refuse ==> final(self).phase is Over,
    {
        match self.phase {
            Phase::Greeting => {
                if b[0] != 5 {
                    self.phase = Phase::Over;
                    let nothing: Vec<u8> = Vec::new();
                    assert(nothing@ =~= Seq::empty());
                    Action::Refuse(nothing, Refusal::NotSocks5)
                } else {
                    self.phase = Phase::Methods(b[1]);
                    Action::Read
                }
            },
            Phase::Methods(_) => {
                self.phase = Phase::Request;
                let reply: Vec<u8> = vec![5, 0];
                assert(reply@ =~= greeting_reply());
                Action::Reply(reply)
            },
            Phase::Request => {
                if b[1] != 1 {
                    self.phase = Phase::Over;
                    Action::Refuse(make_reply(COMMAND_NOT_SUPPORTED), Refusal::OnlyConnect)
                } else if b[3] == 1 {
                    self.phase = Phase::Address;
                    Action::Read
                } else if b[3] == 3 {
                    self.phase = Phase::NameLength;
                    Action::Read
                } else {
                    self.phase = Phase::Over;
                    Action::Refuse(make_reply(ADDRESS_TYPE_NOT_SUPPORTED), Refusal::BadAddressType)
                }
            },
            Phase::Address => {
                self.phase = Phase::Port;
                self.target = Target::Ip(Ipv4::new(b[0], b[1], b[2], b[3]));
                Action::Read
            },
            Phase::NameLength => {
                self.phase = Phase::Name(b[0]);
                Action::Read
            },
            Phase::Name(_) => {
                self.phase = Phase::Port;
                self.target = Target::Name(utf8_lossy(b));
                Action::Read
            },
            Phase::Port => {
                self.phase = Phase::Over;
                let port: u16 = b[0] as u16 * 256 + b[1] as u16;
                let mut target = Target::Ip(Ipv4::new(0, 0, 0, 0));
                std::mem::swap(&mut self.target, &mut target);
                Action::Connect(target, port)
            },
            Phase::Over => Action::Read,
        }
    }
}

/// The address that a host name is in itself. Any other name has to be resolved.
pub fn literal_address(host: &str) -> (r: Option<Ipv4>)
    ensures
        match r {
            Some(ip) => host.spec_bytes() == ip.dotted(),
            None => is_no_ipv4(host.spec_bytes()),
        },
{
    parse_ipv4(host.as_bytes())
}

/// How a dialogue ends.
pub enum End {
    /// The client sent too little.
    Unfinished,
    Refused(Refusal),
    /// The client is to be connected; these bytes of it were not read yet.
    Connect(TargetView, u16, Seq<u8>),
}

/// What a client that sends `input` is written, and how that ends.
pub open spec fn dialogue(phase: Phase, target: TargetView, input: Seq<u8>) -> (Seq<u8>, End)
    decreases phase.spec_left(),
{
    let n = phase.spec_wants();
    if phase == Phase::Over || input.len() < n {
        (Seq::empty(), End::Unfinished)
    } else {
        let (phase2, target2, todo) = step(phase, target, input.take(n as int));
        let rest = input.skip(n as int);
        match todo {
            ActionView::Read => dialogue(phase2, target2, rest),
            ActionView::Reply(bytes) => {
                let (more, end) = dialogue(phase2, target2, rest);
                (bytes + more, end)
            },
            ActionView::Refuse(bytes, why) => (bytes, End::Refused(why)),
            ActionView::Connect(t, port) => (Seq::empty(), End::Connect(t, port, rest)),
        }
    }
}

/// What a client is written and how that ends, from the greeting on.
pub open spec fn served(input: Seq<u8>) -> (Seq<u8>, End) {
    dialogue(Phase::Greeting, TargetView::Ip(Ipv4 { a: 0, b: 0, c: 0, d: 0 }), input)
}

/// A greeting that offers some methods.
pub open spec fn greeting(methods: Seq<u8>) -> Seq<u8> {
    seq![5u8, methods.len() as u8] + methods
}

/// After a greeting, whatever methods it offers, the client is told that no
/// authentication is needed, and its request follows.
proof fn lemma_greeted(methods: Seq<u8>, rest: Seq<u8>)
    requires
        methods.len() <= 255,
    ensures
        ({
            let (more, end) = dialogue(
                Phase::Request,
                TargetView::Ip(Ipv4 { a: 0, b: 0, c: 0, d: 0 }),
                rest,
            );
            served(greeting(methods) + rest) == (greeting_reply() + more, end)
        }),
{
    let input = greeting(methods) + rest;
    let none = TargetView::Ip(Ipv4 { a: 0, b: 0, c: 0, d: 0 });
    let n = methods.len() as u8;
    assert(input.take(2) =~= seq![5u8, n]);
    let behind = input.skip(2);
    assert(behind =~= methods + rest);
    assert(dialogue(Phase::Greeting, none, input) == dialogue(Phase::Methods(n), none, behind));
    assert(behind.take(n as int) =~= methods);
    assert(behind.skip(n as int) =~= rest);
}

/// A client that asks for a connection to an IPv4 address gets one: it is told that no
/// authentication is needed, and the address and the port are those that it sent,
/// whatever the version and the reserved byte of its request. No byte behind the
/// request is read.
pub proof fn law_connect_to_address(
    methods: Seq<u8>,
    version: u8,
    reserved: u8,
    ip: Ipv4,
    port: u16,
    rest: Seq<u8>,
)
    requires
        methods.len() <= 255,
    ensures
        served(
            greeting(methods) + (seq![version, 1, reserved, 1, ip.a, ip.b, ip.c, ip.d] + be16_bytes(
                port,
            ) + rest),
        ) == (greeting_reply(), End::Connect(TargetView::Ip(ip), port, rest)),
{
    let request = seq![version, 1, reserved, 1, ip.a, ip.b, ip.c, ip.d] + be16_bytes(port) + rest;
    let none = TargetView::Ip(Ipv4 { a: 0, b: 0, c: 0, d: 0 });
    lemma_greeted(methods, request);
    assert(request.take(4) =~= seq![version, 1, reserved, 1]);
    let behind = request.skip(4);
    assert(behind =~= seq![ip.a, ip.b, ip.c, ip.d] + be16_bytes(port) + rest);
    assert(dialogue(Phase::Request, none, request) == dialogue(Phase::Address, none, behind));
    assert(behind.take(4) =~= seq![ip.a, ip.b, ip.c, ip.d]);
    let last = behind.skip(4);
    assert(last =~= be16_bytes(port) + rest);
    lemma_port(TargetView::Ip(ip), port, rest);
    assert(dialogue(Phase::Address, none, behind) == dialogue(
        Phase::Port,
        TargetView::Ip(ip),
        last,
    ));
    assert(greeting_reply() + Seq::<u8>::empty() =~= greeting_reply());
}

proof fn lemma_port(target: TargetView, port: u16, rest: Seq<u8>)
    ensures
        dialogue(Phase::Port, target, be16_bytes(port) + rest) == (
            Seq::<u8>::empty(),
            End::Connect(target, port, rest),
        ),
{
    let input = be16_bytes(port) + rest;
    assert(input.take(2) =~= be16_bytes(port));
    assert(input.skip(2) =~= rest);
    assert(be16(input.take(2), 0) == port);
}

/// A client that asks for a connection to a host gets one: the name is the text that it
/// sent.
pub proof fn law_connect_to_name(
    methods: Seq<u8>,
    version: u8,
    reserved: u8,
    name: Seq<u8>,
    port: u16,
    rest: Seq<u8>,
)
    requires
        methods.len() <= 255,
        name.len() <= 255,
    ensures
        served(
            greeting(methods) + (seq![version, 1, reserved, 3, name.len() as u8] + name
                + be16_bytes(port) + rest),
        ) == (greeting_reply(), End::Connect(TargetView::Name(lossy(name)), port, rest)),
{
    let n = name.len() as u8;
    let request = seq![version, 1, reserved, 3, n] + name + be16_bytes(port) + rest;
    let none = TargetView::Ip(Ipv4 { a: 0, b: 0, c: 0, d: 0 });
    lemma_greeted(methods, request);
    assert(request.take(4) =~= seq![version, 1, reserved, 3]);
    let second = request.skip(4);
    assert(second =~= seq![n] + name + be16_bytes(port) + rest);
    assert(dialogue(Phase::Request, none, request) == dialogue(Phase::NameLength, none, second));
    assert(second.take(1) =~= seq![n]);
    let third = second.skip(1);
    assert(third =~= name + be16_bytes(port) + rest);
    assert(dialogue(Phase::NameLength, none, second) == dialogue(Phase::Name(n), none, third));
    assert(third.take(n as int) =~= name);
    let last = third.skip(n as int);
    assert(last =~= be16_bytes(port) + rest);
    lemma_port(TargetView::Name(lossy(name)), port, rest);
    assert(dialogue(Phase::Name(n), none, third) == dialogue(
        Phase::Port,
        TargetView::Name(lossy(name)),
        last,
    ));
    assert(greeting_reply() + Seq::<u8>::empty() =~= greeting_reply());
}

/// A client that does not greet with version 5 is written nothing.
pub proof fn law_other_version_refused(version: u8, count: u8, rest: Seq<u8>)
    requires
        version != 5,
    ensures
        served(seq![version, count] + rest) == (
            Seq::<u8>::empty(),
            End::Refused(Refusal::NotSocks5),
        ),
{
    let input = seq![version, count] + rest;
    assert(input.take(2) =~= seq![version, count]);
}

/// A request for anything but a connection is answered with code 7.
pub proof fn law_other_command_refused(
    methods: Seq<u8>,
    version: u8,
    command: u8,
    reserved: u8,
    address_type: u8,
    rest: Seq<u8>,
)
    requires
        methods.len() <= 255,
        command != 1,
    ensures
        served(
            greeting(methods) + (seq![version, command, reserved, address_type] + rest),
        ) == (
            greeting_reply() + request_reply(COMMAND_NOT_SUPPORTED),
            End::Refused(Refusal::OnlyConnect),
        ),
{
    let request = seq![version, command, reserved, address_type] + rest;
    lemma_greeted(methods, request);
    assert(request.take(4) =~= seq![version, command, reserved, address_type]);
}

/// A request for a connection to an address of another type is answered with code 8.
pub proof fn law_other_address_type_refused(
    methods: Seq<u8>,
    version: u8,
    reserved: u8,
    address_type: u8,
    rest: Seq<u8>,
)
    requires
        methods.len() <= 255,
        address_type != 1,
        address_type != 3,
    ensures
        served(greeting(methods) + (seq![version, 1, reserved, address_type] + rest)) == (
            greeting_reply() + request_reply(ADDRESS_TYPE_NOT_SUPPORTED),
            End::Refused(Refusal::BadAddressType),
        ),
{
    let request = seq![version, 1, reserved, address_type] + rest;
    lemma_greeted(methods, request);
    assert(request.take(4) =~= seq![version, 1, reserved, address_type]);
}

/// The handshake on the wire, byte by byte, for a client that offers any methods. It is
/// answered `05 00`. A request for an IPv4 address connects to the four bytes and the port
/// that it holds, the most significant byte first, and one for a name to that name. One
/// with another command is answered with code 7 and one with another type of address with
/// code 8, in ten bytes. A greeting of another version is answered nothing.
pub proof fn law_handshake_bytes(
    count: u8,
    methods: Seq<u8>,
    r: Seq<u8>,
    length: u8,
    name: Seq<u8>,
    high: u8,
    low: u8,
    rest: Seq<u8>,
)
    requires
        methods.len() == count,
        name.len() == length,
        r.len() == 8,
    ensures
        r[1] == 1 && r[3] == 1 ==> served(
            seq![5u8, count] + methods + r + seq![high, low] + rest,
        ) == (
            seq![5u8, 0],
            End::Connect(
                TargetView::Ip(Ipv4 { a: r[4], b: r[5], c: r[6], d: r[7] }),
                (high * 256 + low) as u16,
                rest,
            ),
        ),
        r[1] == 1 && r[3] == 3 ==> served(
            seq![5u8, count] + methods + r.take(4) + seq![length] + name + seq![high, low] + rest,
        ) == (
            seq![5u8, 0],
            End::Connect(TargetView::Name(lossy(name)), (high * 256 + low) as u16, rest),
        ),
        r[1] != 1 ==> served(seq![5u8, count] + methods + r + rest) == (
            seq![5u8, 0, 5, 7, 0, 1, 0, 0, 0, 0, 0, 0],
            End::Refused(Refusal::OnlyConnect),
        ),
        r[1] == 1 && r[3] != 1 && r[3] != 3 ==> served(seq![5u8, count] + methods + r + rest) == (
            seq![5u8, 0, 5, 8, 0, 1, 0, 0, 0, 0, 0, 0],
            End::Refused(Refusal::BadAddressType),
        ),
        high != 5 ==> served(seq![high, low] + rest) == (
            Seq::<u8>::empty(),
            End::Refused(Refusal::NotSocks5),
        ),
{
    let port = (high * 256 + low) as u16;
    assert(be16_bytes(port) =~= seq![high, low]);
    assert(greeting(methods) =~= seq![5u8, count] + methods);
    assert(greeting_reply() =~= seq![5u8, 0]);
    if r[1] == 1 && r[3] == 1 {
        let ip = Ipv4 { a: r[4], b: r[5], c: r[6], d: r[7] };
        law_connect_to_address(methods, r[0], r[2], ip, port, rest);
        assert(seq![r[0], 1, r[2], 1, ip.a, ip.b, ip.c, ip.d] =~= r);
        assert(greeting(methods) + (r + be16_bytes(port) + rest) =~= seq![5u8, count] + methods + r
            + seq![high, low] + rest);
    } else if r[1] == 1 && r[3] == 3 {
        law_connect_to_name(methods, r[0], r[2], name, port, rest);
        assert(seq![r[0], 1, r[2], 3, name.len() as u8] =~= r.take(4) + seq![length]);
        assert(greeting(methods) + (r.take(4) + seq![length] + name + be16_bytes(port) + rest)
            =~= seq![5u8, count] + methods + r.take(4) + seq![length] + name + seq![high, low]
            + rest);
    } else {
        let behind = r.skip(4) + rest;
        assert(seq![r[0], r[1], r[2], r[3]] + behind =~= r + rest);
        assert(greeting(methods) + (r + rest) =~= seq![5u8, count] + methods + r + rest);
        if r[1] != 1 {
            law_other_command_refused(methods, r[0], r[1], r[2], r[3], behind);
            assert(greeting_reply() + request_reply(7) =~= seq![
                5u8,
                0,
                5,
                7,
                0,
                1,
                0,
                0,
                0,
                0,
                0,
                0,
            ]);
        } else {
            law_other_address_type_refused(methods, r[0], r[2], r[3], behind);
            assert(greeting_reply() + request_reply(8) =~= seq![
                5u8,
                0,
                5,
                8,
                0,
                1,
                0,
                0,
                0,
                0,
                0,
                0,
            ]);
        }
    }
    if high != 5 {
        law_other_version_refused(high, low, rest);
    }
}

/// What a client is written for its first bytes is what it is written first for all of
/// them. Once it is refused or connected, nothing that it sends behind that changes it.
pub proof fn law_answers_grow(phase: Phase, target: TargetView, a: Seq<u8>, b: Seq<u8>)
    ensures
        ({
            let (part, end) = dialogue(phase, target, a);
            let (whole, end2) = dialogue(phase, target, a + b);
            &&& part.len() <= whole.len() && part == whole.take(part.len() as int)
            &&& match end {
                End::Unfinished => true,
                End::Refused(why) => whole == part && end2 == End::Refused(why),
                End::Connect(t, port, rest) => whole == part && end2 == End::Connect(
                    t,
                    port,
                    rest + b,
                ),
            }
        }),
    decreases phase.spec_left(),
{
    let n = phase.spec_wants();
    let (part, end) = dialogue(phase, target, a);
    let (whole, end2) = dialogue(phase, target, a + b);
    if phase == Phase::Over || a.len() < n {
        assert(whole.take(0) =~= part);
    } else {
        assert((a + b).take(n as int) =~= a.take(n as int));
        assert((a + b).skip(n as int) =~= a.skip(n as int) + b);
        let (phase2, target2, todo) = step(phase, target, a.take(n as int));
        match todo {
            ActionView::Read => {
                law_answers_grow(phase2, target2, a.skip(n as int), b);
            },
            ActionView::Reply(bytes) => {
                law_answers_grow(phase2, target2, a.skip(n as int), b);
                let (more, _) = dialogue(phase2, target2, a.skip(n as int));
                let (more2, _) = dialogue(phase2, target2, a.skip(n as int) + b);
                assert((bytes + more2).take((bytes + more).len() as int) =~= bytes + more2.take(
                    more.len() as int,
                ));
            },
            _ => {
                assert(whole.take(part.len() as int) =~= part);
            },
        }
    }
}

} // verus!

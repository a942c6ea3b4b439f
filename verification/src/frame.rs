//! The transport under the tunnel: each message travels over TCP behind its length,
//! which is four bytes, least significant byte first.
use vstd::prelude::*;

verus! {

/// How many bytes the length of a message takes.
pub const HEADER_LEN: usize = 4;

/// The longest message that a reader accepts.
pub const MAX_MESSAGE: usize = 65535;

/// The low 32 bits of a number, least significant byte first.
pub open spec fn le32_bytes(n: nat) -> Seq<u8> {
    seq![
        (n % 256) as u8,
        (n / 256 % 256) as u8,
        (n / 65536 % 256) as u8,
        (n / 16777216 % 256) as u8,
    ]
}

/// The number that four bytes stand for, least significant byte first.
pub open spec fn le32(s: Seq<u8>) -> nat {
    (s[0] + s[1] * 256 + s[2] * 65536 + s[3] * 16777216) as nat
}

/// A message behind its length.
pub open spec fn framed(message: Seq<u8>) -> Seq<u8> {
    le32_bytes(message.len()) + message
}

/// Puts the length in front of a message.
pub fn frame(buf: &[u8]) -> (v: Vec<u8>)
    ensures
        v@ == framed(buf@),
        v@.len() == buf@.len() + 4,
        v@[0] == buf@.len() % 256,
        v@[1] == buf@.len() / 256 % 256,
        v@[2] == buf@.len() / 65536 % 256,
        v@[3] == buf@.len() / 16777216 % 256,
        v@.skip(4) == buf@,
{
    let n: usize = buf.len();
    let mut v: Vec<u8> = Vec::new();
    v.push((n % 256) as u8);
    v.push((n / 256 % 256) as u8);
    v.push((n / 65536 % 256) as u8);
    v.push((n / 16777216 % 256) as u8);
    assert(v@ =~= le32_bytes(n as nat));
    v.extend_from_slice(buf);
    assert(v@ =~= framed(buf@));
    v
}

/// Where a reader stands in the stream.
#[derive(Clone, Copy, Debug, PartialEq, Eq, Structural)]
pub enum FrameReader {
    /// Before the length of a message.
    Header,
    /// Before a message of this length.
    Body(usize),
    /// At a length that is not accepted. Nothing more is read.
    Broken,
}

/// What a reader makes of the bytes that it asked for.
pub enum ReadStep {
    /// There is more to read before a message is complete.
    More,
    /// A message is complete.
    Message(Vec<u8>),
    /// The stream is not to be read on.
    Stop,
}

impl FrameReader {
    /// How many bytes the reader asks for next.
    pub open spec fn spec_wants(self) -> nat {
        match self {
            FrameReader::Header => HEADER_LEN as nat,
            FrameReader::Body(n) => n as nat,
            FrameReader::Broken => 0,
        }
    }

    /// The reader behind a header.
    pub open spec fn after_header(header: Seq<u8>) -> FrameReader {
        if le32(header) == 0 || le32(header) > MAX_MESSAGE {
            FrameReader::Broken
        } else {
            FrameReader::Body(le32(header) as usize)
        }
    }

    /// How many bytes the reader asks for next.
    pub fn wants(&self) -> (n: usize)
        ensures
            n == self.spec_wants(),
            *self == FrameReader::Header ==> n == 4,
            *self matches FrameReader::Body(len) ==> n == len,
            *self == FrameReader::Broken ==> n == 0,
    {
        match self {
            FrameReader::Header => HEADER_LEN,
            FrameReader::Body(n) => *n,
            FrameReader::Broken => 0,
        }
    }

    /// Takes the bytes that the reader asked for. A length of zero or of more than
    /// [`MAX_MESSAGE`] ends the stream.
    pub fn feed(&mut self, bytes: Vec<u8>) -> (step: ReadStep)
        requires
            bytes@.len() == old(self).spec_wants(),
        ensures
            match *old(self) {
                FrameReader::Header => {
                    &&& *final(self) == FrameReader::after_header(bytes@)
                    &&& *final(self) == FrameReader::Broken ==> step is Stop
                    &&& *final(self) != FrameReader::Broken ==> step is More
                },
                FrameReader::Body(_) => *final(self) == FrameReader::Header && step
                    == ReadStep::Message(bytes),
                FrameReader::Broken => *final(self) == FrameReader::Broken && step is Stop,
            },
            *old(self) == FrameReader::Header ==> ({
                let n = bytes@[0] + 256 * bytes@[1] + 65536 * bytes@[2] + 16777216 * bytes@[3];
                if 1 <= n <= 65535 {
                    *final(self) matches FrameReader::Body(len) && len == n && step is More
                } else {
                    *final(self) == FrameReader::Broken && step is Stop
                }
            }),
    {
        match *self {
            FrameReader::Header => {
                let high: u32 = bytes[2] as u32 * 65536 + bytes[3] as u32 * 16777216;
                let n: u32 = bytes[0] as u32 + bytes[1] as u32 * 256 + high;
                assert(n == le32(bytes@));
                if n == 0 || n > MAX_MESSAGE as u32 {
                    *self = FrameReader::Broken;
                    ReadStep::Stop
                } else {
                    *self = FrameReader::Body(n as usize);
                    ReadStep::More
                }
            },
            FrameReader::Body(_) => {
                *self = FrameReader::Header;
                ReadStep::Message(bytes)
            },
            FrameReader::Broken => ReadStep::Stop,
        }
    }
}

/// The messages that a reader finds in a stream by feeding it what it wants: it ends at
/// a length that is not accepted, and where the stream breaks off.
pub open spec fn read_all(reader: FrameReader, stream: Seq<u8>) -> Seq<Seq<u8>>
    decreases
            stream.len(),
            if reader is Body {
                1int
            } else {
                0int
            },
{
    let n = reader.spec_wants() as int;
    if stream.len() < n {
        Seq::empty()
    } else {
        match reader {
            FrameReader::Header => read_all(
                FrameReader::after_header(stream.take(n)),
                stream.skip(n),
            ),
            FrameReader::Body(_) => seq![stream.take(n)] + read_all(
                FrameReader::Header,
                stream.skip(n),
            ),
            FrameReader::Broken => Seq::empty(),
        }
    }
}

/// Messages one behind the other, each behind its length.
pub open spec fn write_all(list: Seq<Seq<u8>>) -> Seq<u8>
    decreases list.len(),
{
    if list.len() == 0 {
        Seq::empty()
    } else {
        framed(list[0]) + write_all(list.drop_first())
    }
}

/// The bytes of a length stand for the length.
pub proof fn law_length_read(n: nat)
    requires
        n < 0x1_0000_0000,
    ensures
        le32(le32_bytes(n)) == n,
{
}

/// A reader finds exactly the messages that were written, in order and unchanged, and
/// leaves a message that breaks off. It goes for messages of an accepted length.
pub proof fn law_read_what_was_written(list: Seq<Seq<u8>>, rest: Seq<u8>)
    requires
        forall|i: int| 0 <= i < list.len() ==> 0 < #[trigger] list[i].len() <= MAX_MESSAGE,
    ensures
        read_all(FrameReader::Header, write_all(list) + rest) == list + read_all(
            FrameReader::Header,
            rest,
        ),
    decreases list.len(),
{
    let stream = write_all(list) + rest;
    let found = read_all(FrameReader::Header, rest);
    if list.len() == 0 {
        assert(stream =~= rest);
        assert(list + found =~= found);
    } else {
        let first = list[0];
        let tail = list.drop_first();
        assert(0 < list[0].len() <= MAX_MESSAGE);
        assert forall|i: int| 0 <= i < tail.len() implies 0 < #[trigger] tail[i].len() <= MAX_MESSAGE by {
            assert(tail[i] == list[i + 1]);
        }
        law_length_read(first.len());
        let behind = stream.skip(HEADER_LEN as int);
        let body = FrameReader::Body(first.len() as usize);
        assert(stream.take(HEADER_LEN as int) =~= le32_bytes(first.len()));
        assert(FrameReader::after_header(stream.take(HEADER_LEN as int)) == body);
        assert(behind.take(first.len() as int) =~= first);
        assert(behind.skip(first.len() as int) =~= write_all(tail) + rest);
        law_read_what_was_written(tail, rest);
        assert(read_all(body, behind) == seq![first] + (tail + found));
        assert(read_all(FrameReader::Header, stream) == read_all(body, behind));
        assert(seq![first] + (tail + found) =~= list + found);
    }
}

/// A reader stops at an empty message and at one that is too long, and finds nothing
/// behind it.
pub proof fn law_bad_length_ends_stream(message: Seq<u8>, rest: Seq<u8>)
    requires
        message.len() == 0 || MAX_MESSAGE < message.len() < 0x1_0000_0000,
    ensures
        read_all(FrameReader::Header, framed(message) + rest) == Seq::<Seq<u8>>::empty(),
{
    let stream = framed(message) + rest;
    let behind = stream.skip(HEADER_LEN as int);
    law_length_read(message.len());
    assert(stream.take(HEADER_LEN as int) =~= le32_bytes(message.len()));
    assert(read_all(FrameReader::Broken, behind) =~= Seq::empty());
    assert(read_all(FrameReader::Header, stream) == read_all(FrameReader::Broken, behind));
}

/// A frame is four bytes and the message. The four bytes are the digits of its length to
/// the base 256, the least significant one first.
pub proof fn law_frame_bytes(message: Seq<u8>)
    requires
        message.len() < 0x1_0000_0000,
    ensures
        ({
            let f = framed(message);
            &&& f.len() == 4 + message.len()
            &&& f[0] + 256 * f[1] + 65536 * f[2] + 16777216 * f[3] == message.len()
            &&& forall|i: int| 0 <= i < message.len() ==> #[trigger] f[i + 4] == message[i]
        }),
{
    let f = framed(message);
    let n = message.len();
    assert(f[0] == n % 256);
    assert(f[1] == n / 256 % 256);
    assert(f[2] == n / 65536 % 256);
    assert(f[3] == n / 16777216 % 256);
    assert(forall|i: int| 0 <= i < n ==> #[trigger] f[i + 4] == message[i]);
}

/// Whatever a header holds, the reader behind it asks for as many bytes as the header
/// says, the least significant byte first, or for none where that is zero or above 65535.
pub proof fn law_header_value(header: Seq<u8>)
    requires
        header.len() == 4,
    ensures
        ({
            let n = header[0] + 256 * header[1] + 65536 * header[2] + 16777216 * header[3];
            &&& le32(header) == n
            &&& 1 <= n <= 65535 ==> FrameReader::after_header(header) == FrameReader::Body(
                n as usize,
            ) && FrameReader::after_header(header).spec_wants() == n
            &&& n == 0 || n > 65535 ==> FrameReader::after_header(header) == FrameReader::Broken
        }),
{
}

/// Messages one behind the other are the frames of the messages, one behind the other.
pub proof fn law_write_all_appends(list: Seq<Seq<u8>>, message: Seq<u8>)
    ensures
        write_all(Seq::<Seq<u8>>::empty()).len() == 0,
        write_all(list.push(message)) == write_all(list) + framed(message),
    decreases list.len(),
{
    if list.len() == 0 {
        assert(list.push(message).drop_first() =~= Seq::empty());
        assert(write_all(list.push(message).drop_first()) =~= Seq::empty());
        assert(write_all(list) =~= Seq::empty());
        assert(write_all(list.push(message)) =~= write_all(list) + framed(message));
    } else {
        law_write_all_appends(list.drop_first(), message);
        assert(list.push(message).drop_first() =~= list.drop_first().push(message));
        assert(list.push(message)[0] == list[0]);
        assert(write_all(list.push(message)) =~= write_all(list) + framed(message));
    }
}

} // verus!

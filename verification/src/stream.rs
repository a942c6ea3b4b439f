//! The reading side of a stream through the tunnel: bytes arrive in pieces of any size
//! and are handed out in portions of any size.
use vstd::prelude::*;

verus! {

/// The bytes that arrived and were not read yet, and whether more can come.
pub struct StreamReader {
    pub leftover: Vec<u8>,
    pub eof: bool,
}

/// The smaller of two lengths.
pub open spec fn shorter(a: nat, b: nat) -> nat {
    if a <= b {
        a
    } else {
        b
    }
}

impl StreamReader {
    pub fn new() -> (reader: Self)
        ensures
            reader.leftover@.len() == 0,
            !reader.eof,
    {
        StreamReader { leftover: Vec::new(), eof: false }
    }

    /// What can be read without waiting into `room` bytes: bytes that are left over, or
    /// nothing at the end of the stream. Otherwise there is a piece to wait for.
    pub fn ready(&mut self, room: usize) -> (r: Option<Vec<u8>>)
        ensures
            final(self).eof == old(self).eof,
            match r {
                Some(bytes) => {
                    let n = shorter(old(self).leftover@.len(), room as nat) as int;
                    &&& old(self).leftover@.len() > 0 || old(self).eof
                    &&& bytes@ == old(self).leftover@.take(n)
                    &&& final(self).leftover@ == old(self).leftover@.skip(n)
                },
                None => {
                    &&& old(self).leftover@.len() == 0
                    &&& !old(self).eof
                    &&& final(self).leftover@ == old(self).leftover@
                },
            },
            r matches Some(bytes) ==> {
                &&& bytes@ + final(self).leftover@ == old(self).leftover@
                &&& bytes@.len() <= room
                &&& bytes@.len() == room || final(self).leftover@.len() == 0
            },
    {
        if self.leftover.len() == 0 && !self.eof {
            return None;
        }
        Some(self.portion(room))
    }

    /// Takes bytes that are left over, as many as there is room for.
    fn portion(&mut self, room: usize) -> (bytes: Vec<u8>)
        ensures
            final(self).eof == old(self).eof,
            ({
                let n = shorter(old(self).leftover@.len(), room as nat) as int;
                &&& bytes@ == old(self).leftover@.take(n)
                &&& final(self).leftover@ == old(self).leftover@.skip(n)
            }),
            bytes@ + final(self).leftover@ == old(self).leftover@,
            bytes@.len() <= room,
            bytes@.len() == room || final(self).leftover@.len() == 0,
    {
        let n: usize = if self.leftover.len() <= room {
            self.leftover.len()
        } else {
            room
        };
        let ghost before = self.leftover@;
        let mut rest = self.leftover.split_off(n);
        assert(self.leftover@ =~= before.take(n as int));
        assert(rest@ =~= before.skip(n as int));
        std::mem::swap(&mut self.leftover, &mut rest);
        rest
    }

    /// A piece arrived, and there is room for `room` bytes of it. The others are left
    /// over.
    pub fn arrived(&mut self, data: Vec<u8>, room: usize) -> (bytes: Vec<u8>)
        requires
            old(self).leftover@.len() == 0,
        ensures
            final(self).eof == old(self).eof,
            bytes@ == data@.take(shorter(data@.len(), room as nat) as int),
            final(self).leftover@ == data@.skip(shorter(data@.len(), room as nat) as int),
            bytes@ + final(self).leftover@ == data@,
            bytes@.len() <= room,
            bytes@.len() == room || final(self).leftover@.len() == 0,
    {
        self.leftover = data;
        self.portion(room)
    }

    /// No more pieces will arrive.
    pub fn ended(&mut self)
        ensures
            final(self).eof,
            final(self).leftover@ == old(self).leftover@,
    {
        self.eof = true;
    }
}

/// What reading again and again gives, each time with some room, while pieces wait: the
/// bytes read, those left over and the pieces that still wait.
pub open spec fn reads(leftover: Seq<u8>, pieces: Seq<Seq<u8>>, rooms: Seq<nat>) -> (
    Seq<u8>,
    Seq<u8>,
    Seq<Seq<u8>>,
)
    decreases rooms.len(),
{
    if rooms.len() == 0 || leftover.len() == 0 && pieces.len() == 0 {
        (Seq::empty(), leftover, pieces)
    } else {
        let (from, rest) = if leftover.len() > 0 {
            (leftover, pieces)
        } else {
            (pieces[0], pieces.drop_first())
        };
        let n = shorter(from.len(), rooms[0]) as int;
        let (bytes, left, waiting) = reads(from.skip(n), rest, rooms.drop_first());
        (from.take(n) + bytes, left, waiting)
    }
}

/// However the reads cut the pieces, no byte is lost, repeated or out of order.
pub proof fn law_reads_keep_bytes(leftover: Seq<u8>, pieces: Seq<Seq<u8>>, rooms: Seq<nat>)
    ensures
        ({
            let (bytes, left, waiting) = reads(leftover, pieces, rooms);
            bytes + left + waiting.flatten() == leftover + pieces.flatten()
        }),
    decreases rooms.len(),
{
    if rooms.len() == 0 || leftover.len() == 0 && pieces.len() == 0 {
        assert(Seq::<u8>::empty() + leftover + pieces.flatten() =~= leftover + pieces.flatten());
    } else {
        let (from, rest) = if leftover.len() > 0 {
            (leftover, pieces)
        } else {
            (pieces[0], pieces.drop_first())
        };
        assert(from + rest.flatten() =~= leftover + pieces.flatten());
        let n = shorter(from.len(), rooms[0]) as int;
        law_reads_keep_bytes(from.skip(n), rest, rooms.drop_first());
        let (bytes, left, waiting) = reads(from.skip(n), rest, rooms.drop_first());
        assert((from.take(n) + bytes) + left + waiting.flatten() =~= from.take(n) + (bytes + left
            + waiting.flatten()));
        assert(from.take(n) + (from.skip(n) + rest.flatten()) =~= from + rest.flatten());
    }
}

/// The shorter of two lengths is none of them longer, and is one of them.
pub proof fn law_shorter(a: nat, b: nat)
    ensures
        shorter(a, b) <= a,
        shorter(a, b) <= b,
        shorter(a, b) == a || shorter(a, b) == b,
{
}

/// A read with room for something, where there is something, gives as many bytes as there
/// are and fit, and so at least one; the bytes come from the front.
pub proof fn law_read_makes_progress(leftover: Seq<u8>, pieces: Seq<Seq<u8>>, room: nat)
    requires
        room > 0,
        leftover.len() > 0 || pieces.len() > 0 && pieces[0].len() > 0,
    ensures
        ({
            let from = if leftover.len() > 0 {
                leftover
            } else {
                pieces[0]
            };
            let (bytes, left, _) = reads(leftover, pieces, seq![room]);
            &&& 0 < bytes.len() <= room
            &&& bytes + left == from
            &&& bytes.len() == room || left.len() == 0
        }),
{
    let rooms = seq![room];
    assert(rooms.drop_first() =~= Seq::empty());
    let (from, rest) = if leftover.len() > 0 {
        (leftover, pieces)
    } else {
        (pieces[0], pieces.drop_first())
    };
    let n = shorter(from.len(), room) as int;
    assert(reads(from.skip(n), rest, rooms.drop_first()) == (Seq::<u8>::empty(), from.skip(n), rest));
    let (bytes, left, _) = reads(leftover, pieces, rooms);
    assert(bytes =~= from.take(n));
    assert(bytes + left =~= from);
}

/// Reading again and again, each time with room for something, reaches every byte: after
/// as many reads as there are bytes and pieces nothing is left.
pub proof fn law_reads_reach_every_byte(
    leftover: Seq<u8>,
    pieces: Seq<Seq<u8>>,
    rooms: Seq<nat>,
)
    requires
        forall|i: int| 0 <= i < rooms.len() ==> #[trigger] rooms[i] > 0,
        rooms.len() >= leftover.len() + pieces.flatten().len() + pieces.len(),
    ensures
        reads(leftover, pieces, rooms).0 == leftover + pieces.flatten(),
        reads(leftover, pieces, rooms).1.len() == 0,
        reads(leftover, pieces, rooms).2.len() == 0,
    decreases rooms.len(),
{
    law_reads_keep_bytes(leftover, pieces, rooms);
    let all = leftover + pieces.flatten();
    if leftover.len() == 0 && pieces.len() == 0 {
        assert(reads(leftover, pieces, rooms).0 =~= all);
    } else {
        let (from, rest) = if leftover.len() > 0 {
            (leftover, pieces)
        } else {
            (pieces[0], pieces.drop_first())
        };
        let n = shorter(from.len(), rooms[0]) as int;
        assert(rooms[0] > 0);
        assert(leftover.len() == 0 ==> pieces.flatten() == pieces[0] + pieces.drop_first().flatten());
        assert forall|i: int| 0 <= i < rooms.drop_first().len() implies #[trigger] rooms.drop_first()[i]
            > 0 by {
            assert(rooms.drop_first()[i] == rooms[i + 1]);
        }
        law_reads_reach_every_byte(from.skip(n), rest, rooms.drop_first());
        let (bytes, left, waiting) = reads(leftover, pieces, rooms);
        assert(waiting.flatten() =~= Seq::empty());
        assert(bytes + left + waiting.flatten() =~= bytes);
    }
}

} // verus!

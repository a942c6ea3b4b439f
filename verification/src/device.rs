//! The virtual network device: two packet queues between the TCP/IP stack and the
//! encrypted tunnel.
use std::collections::VecDeque;
use vstd::prelude::*;

verus! {

/// The contents of a queue of packets, oldest first.
pub open spec fn packets(queue: VecDeque<Vec<u8>>) -> Seq<Seq<u8>> {
    queue@.map_values(|p: Vec<u8>| p@)
}

/// A device whose wire is the tunnel.
pub struct VirtDevice {
    /// Decrypted IP packets that came out of the tunnel.
    pub rx: VecDeque<Vec<u8>>,
    /// IP packets that wait to be encrypted and sent into the tunnel.
    pub tx: VecDeque<Vec<u8>>,
    pub mtu: usize,
}

/// One received packet.
pub struct RxTok(pub Vec<u8>);

/// The right to append one packet to the transmit queue.
pub struct TxTok<'a>(pub &'a mut VecDeque<Vec<u8>>);

impl RxTok {
    /// Hands the packet to `f`.
    pub fn consume<R, F: FnOnce(&[u8]) -> R>(self, f: F) -> (r: R)
        requires
            forall|packet: &[u8]| packet@ == self.0@ ==> f.requires((packet,)),
        ensures
            exists|packet: &[u8]| packet@ == self.0@ && f.ensures((packet,), r),
    {
        f(self.0.as_slice())
    }
}

/// `len` zero bytes.
pub open spec fn zeros(len: nat) -> Seq<u8> {
    Seq::new(len, |i: int| 0u8)
}

impl<'a> TxTok<'a> {
    /// Lets `f` fill a packet of `len` zero bytes and appends what `f` left in it.
    pub fn consume<R, F: FnOnce(&mut [u8]) -> R>(self, len: usize, f: F) -> (r: R)
        requires
            forall|packet: &mut [u8]| packet@ == zeros(len as nat) ==> f.requires((packet,)),
        ensures
            exists|packet: &mut [u8]|
                packet@ == zeros(len as nat) && f.ensures((packet,), r) && packets(*final(self.0))
                    == packets(*old(self.0)).push(final(packet)@),
    {
        let mut buf: Vec<u8> = vec![0u8; len];
        assert(buf@ =~= zeros(len as nat));
        let slice = buf.as_mut_slice();
        assert(slice@ == zeros(len as nat));
        let r = f(slice);
        self.0.push_back(buf);
        r
    }
}

impl VirtDevice {
    pub fn new(mtu: usize) -> (device: Self)
        ensures
            packets(device.rx) == Seq::<Seq<u8>>::empty(),
            packets(device.tx) == Seq::<Seq<u8>>::empty(),
            device.mtu == mtu,
    {
        VirtDevice { rx: VecDeque::new(), tx: VecDeque::new(), mtu }
    }

    /// Takes the oldest received packet, together with the right to answer it.
    /// There is none where nothing was received.
    pub fn receive(&mut self) -> (r: Option<(RxTok, TxTok<'_>)>)
        ensures
            final(self).mtu == old(self).mtu,
            match r {
                Some((rx, tx)) => {
                    &&& packets(old(self).rx).len() > 0
                    &&& rx.0@ == packets(old(self).rx)[0]
                    &&& packets(final(self).rx) == packets(old(self).rx).drop_first()
                    &&& *tx.0 == old(self).tx
                    &&& final(self).tx == *final(tx.0)
                },
                None => {
                    &&& packets(old(self).rx).len() == 0
                    &&& packets(final(self).rx).len() == 0
                    &&& final(self).tx == old(self).tx
                },
            },
    {
        match self.rx.pop_front() {
            Some(pkt) => {
                assert(packets(self.rx) =~= packets(old(self).rx).drop_first());
                Some((RxTok(pkt), TxTok(&mut self.tx)))
            },
            None => None,
        }
    }

    /// The right to send one packet. There is always one.
    pub fn transmit(&mut self) -> (r: Option<TxTok<'_>>)
        ensures
            final(self).mtu == old(self).mtu,
            final(self).rx == old(self).rx,
            r is Some,
            *(r->0).0 == old(self).tx,
            final(self).tx == *final((r->0).0),
    {
        Some(TxTok(&mut self.tx))
    }
}

/// The contents of a queue are the contents of each packet, in order.
pub proof fn law_packets_in_order(queue: VecDeque<Vec<u8>>)
    ensures
        packets(queue).len() == queue@.len(),
        forall|i: int| 0 <= i < queue@.len() ==> #[trigger] packets(queue)[i] == queue@[i]@,
{
}

/// A packet that is to be filled has the length that was asked for and holds zeros.
pub proof fn law_zeros(len: nat)
    ensures
        zeros(len).len() == len,
        forall|i: int| 0 <= i < len ==> #[trigger] zeros(len)[i] == 0,
{
}

} // verus!

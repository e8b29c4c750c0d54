use crate::packet::{encodable, Packet};
use std::collections::VecDeque;
use vstd::prelude::*;

verus! {

/// What a queue holds: its packets in order of arrival, and whether it has
/// been closed.
pub struct QueueView {
    pub packets: Seq<Packet>,
    pub closed: bool,
}

impl QueueView {
    /// Every queued packet has a computable text form.
    pub open spec fn wf(self) -> bool {
        forall|i: int| 0 <= i < self.packets.len() ==> encodable(#[trigger] self.packets[i])
    }
}

/// The outbound packet queue of one session: first in, first out, peekable,
/// and closeable. Once closed it accepts no packet, while the packets it
/// already holds can still be taken.
pub struct PacketQueue {
    items: VecDeque<Packet>,
    closed: bool,
}

impl View for PacketQueue {
    type V = QueueView;

    closed spec fn view(&self) -> QueueView {
        QueueView { packets: self.items@, closed: self.closed }
    }
}

impl PacketQueue {
    /// An empty, open queue.
    pub fn new() -> (r: PacketQueue)
        ensures
            r@.packets == Seq::<Packet>::empty(),
            !r@.closed,
            r@.wf(),
    {
        PacketQueue { items: VecDeque::new(), closed: false }
    }

    /// Appends a packet. An open queue accepts every packet whose text form
    /// can be computed; a closed one accepts none.
    pub fn push(&mut self, packet: Packet) -> (accepted: bool)
        requires
            old(self)@.wf(),
        ensures
            accepted == (!old(self)@.closed && encodable(packet)),
            accepted ==> final(self)@ == (QueueView {
                packets: old(self)@.packets.push(packet),
                closed: false,
            }),
            !accepted ==> final(self)@ == old(self)@,
            final(self)@.wf(),
    {
        if self.closed || !packet.is_encodable() {
            false
        } else {
            self.items.push_back(packet);
            true
        }
    }

    /// Closes the queue; closing twice is the same as closing once.
    pub fn close(&mut self)
        ensures
            final(self)@ == (QueueView { packets: old(self)@.packets, closed: true }),
    {
        self.closed = true;
    }

    pub fn is_closed(&self) -> (r: bool)
        ensures
            r == self@.closed,
    {
        self.closed
    }

    pub fn len(&self) -> (r: usize)
        ensures
            r == self@.packets.len(),
    {
        self.items.len()
    }

    pub fn is_empty(&self) -> (r: bool)
        ensures
            r == (self@.packets.len() == 0),
    {
        self.items.len() == 0
    }

    /// The next packet, left in the queue.
    pub fn peek(&self) -> (r: Option<&Packet>)
        ensures
            self@.packets.len() == 0 ==> r is None,
            self@.packets.len() > 0 ==> r == Some(&self@.packets[0]),
    {
        if self.items.len() == 0 {
            None
        } else {
            Some(&self.items[0])
        }
    }

    /// Takes the next packet, if there is one, without waiting.
    pub fn try_recv(&mut self) -> (r: Option<Packet>)
        ensures
            old(self)@.packets.len() == 0 ==> r is None && final(self)@ == old(self)@,
            old(self)@.packets.len() > 0 ==> r == Some(old(self)@.packets[0]) && final(self)@
                == (QueueView {
                packets: old(self)@.packets.drop_first(),
                closed: old(self)@.closed,
            }),
            old(self)@.wf() ==> final(self)@.wf(),
    {
        let r = self.items.pop_front();
        proof {
            if r is Some {
                assert(old(self)@.packets.drop_first() =~= self.items@);
            }
        }
        r
    }
}

} // verus!

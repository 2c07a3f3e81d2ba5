//! Channels: the capability set every transport variant offers, the
//! loopback queue a party uses to send to itself, and a placeholder.

use crate::net::Packet;
use std::collections::VecDeque;
use vstd::prelude::*;

verus! {

/// Errors a channel can surface.
#[derive(Debug, Clone, Copy, PartialEq, Eq, Structural)]
pub enum ChannelError {
    /// The connect retry budget was exhausted.
    Timeout,
    /// A read from a loopback channel whose queue is empty.
    EmptyBuffer,
    /// A surfaced I/O or TLS error on a peer channel, or an operation on
    /// a channel that was already closed.
    Transport,
}

/// The capability set of a channel of the network.
pub trait Channel {
    /// Closes the channel; after this, send and receive fail.
    fn shutdown(&mut self) -> Result<(), ChannelError>;

    /// Sends one packet, returning the payload size on success.
    fn send(&mut self, packet: &Packet) -> Result<usize, ChannelError>;

    /// Receives one packet.
    fn recv(&mut self) -> Result<Packet, ChannelError>;
}

/// The channel a party uses to send to itself: a FIFO packet queue.
/// Closing it is terminal: the queue is dropped and every later send or
/// receive fails.
pub struct LoopBackChannel {
    buffer: VecDeque<Packet>,
    closed: bool,
}

impl View for LoopBackChannel {
    type V = Seq<Seq<u8>>;

    closed spec fn view(&self) -> Seq<Seq<u8>> {
        self.buffer@.map_values(|pk: Packet| pk@)
    }
}

impl LoopBackChannel {
    /// Whether the channel has been shut down.
    pub closed spec fn is_closed(&self) -> bool {
        self.closed
    }

    /// An open, empty loopback queue.
    pub fn new() -> (r: Self)
        ensures
            r@ == Seq::<Seq<u8>>::empty(),
            !r.is_closed(),
    {
        let c = LoopBackChannel { buffer: VecDeque::new(), closed: false };
        proof {
            assert(c@ =~= Seq::<Seq<u8>>::empty());
        }
        c
    }

    /// Enqueues a copy of the packet; fails once the channel is closed.
    pub fn send(&mut self, packet: &Packet) -> (r: Result<usize, ChannelError>)
        ensures
            final(self).is_closed() == old(self).is_closed(),
            old(self).is_closed() ==> (r matches Err(e) && e == ChannelError::Transport
                && final(self)@ == old(self)@),
            !old(self).is_closed() ==> (final(self)@ == old(self)@.push(packet@) && (r matches Ok(
                n,
            ) && n == packet@.len())),
    {
        if self.closed {
            return Err(ChannelError::Transport);
        }
        let copy = packet.duplicate();
        let size = copy.size();
        self.buffer.push_back(copy);
        proof {
            assert(self@ =~= old(self)@.push(packet@));
        }
        Ok(size)
    }

    /// Dequeues the oldest packet; fails with `EmptyBuffer` when the
    /// queue is empty and with `Transport` once the channel is closed.
    pub fn recv(&mut self) -> (r: Result<Packet, ChannelError>)
        ensures
            final(self).is_closed() == old(self).is_closed(),
            old(self).is_closed() ==> (r matches Err(e) && e == ChannelError::Transport
                && final(self)@ == old(self)@),
            !old(self).is_closed() && old(self)@.len() == 0 ==> (r matches Err(e) && e
                == ChannelError::EmptyBuffer && final(self)@ == old(self)@),
            !old(self).is_closed() && old(self)@.len() > 0 ==> (r matches Ok(pk) && pk@ == old(
                self,
            )@[0] && final(self)@ == old(self)@.drop_first()),
    {
        if self.closed {
            return Err(ChannelError::Transport);
        }
        match self.buffer.pop_front() {
            Some(packet) => {
                proof {
                    assert(self@ =~= old(self)@.drop_first());
                }
                Ok(packet)
            },
            None => {
                proof {
                    assert(self@ =~= old(self)@);
                }
                Err(ChannelError::EmptyBuffer)
            },
        }
    }

    /// Clears the queue and closes the channel for good.
    pub fn shutdown(&mut self) -> (r: Result<(), ChannelError>)
        ensures
            final(self)@ == Seq::<Seq<u8>>::empty(),
            final(self).is_closed(),
            r is Ok,
    {
        self.buffer.clear();
        self.closed = true;
        proof {
            assert(self@ =~= Seq::<Seq<u8>>::empty());
        }
        Ok(())
    }
}

impl Default for LoopBackChannel {
    /// An open, empty loopback queue.
    fn default() -> (r: Self)
        ensures
            r@ == Seq::<Seq<u8>>::empty(),
            !r.is_closed(),
    {
        LoopBackChannel::new()
    }
}

impl Channel for LoopBackChannel {
    fn shutdown(&mut self) -> Result<(), ChannelError> {
        LoopBackChannel::shutdown(self)
    }

    fn send(&mut self, packet: &Packet) -> Result<usize, ChannelError> {
        LoopBackChannel::send(self, packet)
    }

    fn recv(&mut self) -> Result<Packet, ChannelError> {
        LoopBackChannel::recv(self)
    }
}

/// A placeholder channel that stands in before a real connection exists:
/// sending drops the packet, receiving yields an empty packet.  It never
/// belongs to an active network, so it carries no lifecycle.
pub struct DummyChannel;

impl DummyChannel {
    /// Reports nothing sent.
    pub fn send(&mut self, _packet: &Packet) -> (r: Result<usize, ChannelError>)
        ensures
            r matches Ok(n) && n == 0,
    {
        Ok(0)
    }

    /// Yields an empty packet.
    pub fn recv(&mut self) -> (r: Result<Packet, ChannelError>)
        ensures
            r matches Ok(pk) && pk@ == Seq::<u8>::empty(),
    {
        Ok(Packet::empty())
    }

    /// Does nothing.
    pub fn shutdown(&mut self) -> (r: Result<(), ChannelError>)
        ensures
            r is Ok,
    {
        Ok(())
    }
}

impl Channel for DummyChannel {
    fn shutdown(&mut self) -> Result<(), ChannelError> {
        DummyChannel::shutdown(self)
    }

    fn send(&mut self, packet: &Packet) -> Result<usize, ChannelError> {
        DummyChannel::send(self, packet)
    }

    fn recv(&mut self) -> Result<Packet, ChannelError> {
        DummyChannel::recv(self)
    }
}

/// One slot of a network: the self-slot loopback queue, a connected peer
/// transport, or a placeholder.
pub enum PartyChannel<C> {
    /// The self-slot FIFO queue.
    LoopBack(LoopBackChannel),
    /// A connected peer transport.
    Remote(C),
    /// A placeholder that drops everything.
    Dummy(DummyChannel),
}

impl<C> PartyChannel<C> {
    /// The queued packets, for the loopback variant.
    pub open spec fn loop_queue(self) -> Seq<Seq<u8>> {
        match self {
            PartyChannel::LoopBack(c) => c@,
            _ => Seq::empty(),
        }
    }

    /// Whether a loopback slot has been shut down.
    pub open spec fn loop_closed(self) -> bool {
        match self {
            PartyChannel::LoopBack(c) => c.is_closed(),
            _ => false,
        }
    }

    /// Whether two slots are the same transport variant.
    pub open spec fn same_kind(self, other: Self) -> bool {
        &&& (self is LoopBack <==> other is LoopBack)
        &&& (self is Remote <==> other is Remote)
        &&& (self is Dummy <==> other is Dummy)
    }
}

/// What one send does to a slot: an open loopback slot enqueues the
/// payload and reports its size, a closed one refuses, a placeholder
/// drops the packet, a peer transport is beyond this specification.
pub open spec fn send_transition<C>(
    pre: PartyChannel<C>,
    post: PartyChannel<C>,
    bytes: Seq<u8>,
    r: Result<usize, ChannelError>,
) -> bool {
    &&& pre.same_kind(post)
    &&& (pre is LoopBack ==> post.loop_closed() == pre.loop_closed())
    &&& (pre is LoopBack && pre.loop_closed() ==> (r matches Err(e) && e
        == ChannelError::Transport && post.loop_queue() == pre.loop_queue()))
    &&& (pre is LoopBack && !pre.loop_closed() ==> post.loop_queue() == pre.loop_queue().push(
        bytes,
    ) && (r matches Ok(n) && n == bytes.len()))
    &&& (pre is Dummy ==> (r matches Ok(n) && n == 0))
}

/// What one receive does to a slot: an open loopback slot dequeues its
/// oldest payload or fails on an empty queue, a closed one refuses, a
/// placeholder yields an empty packet, a peer transport is beyond this
/// specification.
pub open spec fn recv_transition<C>(
    pre: PartyChannel<C>,
    post: PartyChannel<C>,
    r: Result<Packet, ChannelError>,
) -> bool {
    &&& pre.same_kind(post)
    &&& (pre is LoopBack ==> post.loop_closed() == pre.loop_closed())
    &&& (pre is LoopBack && pre.loop_closed() ==> (r matches Err(e) && e
        == ChannelError::Transport && post.loop_queue() == pre.loop_queue()))
    &&& (pre is LoopBack && !pre.loop_closed() && pre.loop_queue().len() == 0 ==> (r matches Err(e)
        && e == ChannelError::EmptyBuffer && post.loop_queue() == pre.loop_queue()))
    &&& (pre is LoopBack && !pre.loop_closed() && pre.loop_queue().len() > 0 ==> (r matches Ok(pk)
        && pk@ == pre.loop_queue()[0] && post.loop_queue() == pre.loop_queue().drop_first()))
    &&& (pre is Dummy ==> (r matches Ok(pk) && pk@ == Seq::<u8>::empty()))
}

/// What closing does to a slot: a loopback queue is dropped and the slot
/// enters its terminal closed state.
pub open spec fn shutdown_transition<C>(
    pre: PartyChannel<C>,
    post: PartyChannel<C>,
    r: Result<(), ChannelError>,
) -> bool {
    &&& pre.same_kind(post)
    &&& (pre is LoopBack ==> post.loop_queue() == Seq::<Seq<u8>>::empty() && post.loop_closed()
        && r is Ok)
    &&& (pre is Dummy ==> r is Ok)
}

/// Whether every slot kept its transport variant between two states of a
/// channel vector.
pub open spec fn kinds_preserved<C>(pre: Seq<PartyChannel<C>>, post: Seq<PartyChannel<C>>) -> bool {
    &&& post.len() == pre.len()
    &&& forall|i: int| 0 <= i < pre.len() ==> (#[trigger] pre[i]).same_kind(post[i])
}

/// Whether no slot is a peer transport, so that this library's own
/// specifications govern every slot.
pub open spec fn no_remote_slots<C>(chs: Seq<PartyChannel<C>>) -> bool {
    forall|i: int| 0 <= i < chs.len() ==> !((#[trigger] chs[i]) is Remote)
}

/// Whether every slot is an open loopback queue.
pub open spec fn all_loopback_open<C>(chs: Seq<PartyChannel<C>>) -> bool {
    forall|i: int|
        0 <= i < chs.len() ==> (#[trigger] chs[i]) is LoopBack && !chs[i].loop_closed()
}

/// Whether no loopback slot has been shut down.
pub open spec fn loopbacks_open<C>(chs: Seq<PartyChannel<C>>) -> bool {
    forall|i: int|
        0 <= i < chs.len() && (#[trigger] chs[i]) is LoopBack ==> !chs[i].loop_closed()
}

/// Whether every loopback queue is empty.
pub open spec fn loop_queues_empty<C>(chs: Seq<PartyChannel<C>>) -> bool {
    forall|i: int|
        0 <= i < chs.len() && (#[trigger] chs[i]) is LoopBack ==> chs[i].loop_queue().len() == 0
}

/// Whether a receive from every slot is bound to succeed: each slot is
/// either an open loopback queue with a packet waiting, or a placeholder.
pub open spec fn slots_readable<C>(chs: Seq<PartyChannel<C>>) -> bool {
    forall|i: int|
        0 <= i < chs.len() ==> ((#[trigger] chs[i]) is LoopBack && !chs[i].loop_closed()
            && chs[i].loop_queue().len() > 0) || chs[i] is Dummy
}

/// The queue left by sending the given payloads, oldest first, onto `q`.
pub open spec fn queue_after_sends(q: Seq<Seq<u8>>, sent: Seq<Seq<u8>>) -> Seq<Seq<u8>>
    decreases sent.len(),
{
    if sent.len() == 0 {
        q
    } else {
        queue_after_sends(q.push(sent[0]), sent.drop_first())
    }
}

/// Sending appends in order: the queue after the sends is the old queue
/// followed by the payloads.
pub proof fn lemma_queue_after_sends(q: Seq<Seq<u8>>, sent: Seq<Seq<u8>>)
    ensures
        queue_after_sends(q, sent) == q + sent,
    decreases sent.len(),
{
    if sent.len() == 0 {
        assert(q + sent =~= q);
    } else {
        lemma_queue_after_sends(q.push(sent[0]), sent.drop_first());
        assert(q.push(sent[0]) + sent.drop_first() =~= q + sent);
    }
}

/// Loopback FIFO law: after a sequence of sends onto an empty loopback
/// queue, the queue holds exactly the payloads in send order, so the
/// k-th of the following receives returns the k-th payload sent and
/// leaves the remaining suffix queued.
pub proof fn lemma_loopback_fifo(sent: Seq<Seq<u8>>, k: int)
    requires
        0 <= k < sent.len(),
    ensures
        queue_after_sends(Seq::empty(), sent) == sent,
        queue_after_sends(Seq::empty(), sent).skip(k)[0] == sent[k],
        queue_after_sends(Seq::empty(), sent).skip(k).drop_first() == queue_after_sends(
            Seq::empty(),
            sent,
        ).skip(k + 1),
{
    lemma_queue_after_sends(Seq::empty(), sent);
    assert(Seq::empty() + sent =~= sent);
    assert(sent.skip(k)[0] == sent[k]);
    assert(sent.skip(k).drop_first() =~= sent.skip(k + 1));
}

/// The client-side connect retry decision: once the elapsed time exceeds
/// the total budget, the attempt is abandoned with `Timeout`; until then
/// the client sleeps and retries.
pub fn connect_retry_decision(elapsed_ms: u64, timeout_ms: u64) -> (r: Option<ChannelError>)
    ensures
        elapsed_ms > timeout_ms ==> r == Some(ChannelError::Timeout),
        elapsed_ms <= timeout_ms ==> r is None,
{
    if elapsed_ms > timeout_ms {
        Some(ChannelError::Timeout)
    } else {
        None
    }
}

impl<C: Channel> PartyChannel<C> {
    /// Sends one packet through whatever transport fills this slot.
    pub fn send(&mut self, packet: &Packet) -> (r: Result<usize, ChannelError>)
        ensures
            send_transition(*old(self), *final(self), packet@, r),
    {
        match self {
            PartyChannel::LoopBack(c) => c.send(packet),
            PartyChannel::Remote(c) => c.send(packet),
            PartyChannel::Dummy(c) => c.send(packet),
        }
    }

    /// Receives one packet from whatever transport fills this slot.
    pub fn recv(&mut self) -> (r: Result<Packet, ChannelError>)
        ensures
            recv_transition(*old(self), *final(self), r),
    {
        match self {
            PartyChannel::LoopBack(c) => c.recv(),
            PartyChannel::Remote(c) => c.recv(),
            PartyChannel::Dummy(c) => c.recv(),
        }
    }

    /// Closes whatever transport fills this slot.
    pub fn shutdown(&mut self) -> (r: Result<(), ChannelError>)
        ensures
            shutdown_transition(*old(self), *final(self), r),
    {
        match self {
            PartyChannel::LoopBack(c) => c.shutdown(),
            PartyChannel::Remote(c) => c.shutdown(),
            PartyChannel::Dummy(c) => c.shutdown(),
        }
    }
}

} // verus!

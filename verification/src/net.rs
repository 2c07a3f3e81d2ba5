//! The transport fabric: packets, channels, and the party-indexed
//! network of channels.

use crate::net::channel::Channel;
use crate::net::channel::ChannelError;
use crate::net::channel::PartyChannel;
use crate::net::channel::kinds_preserved;
use crate::net::channel::loopbacks_open;
use crate::net::channel::no_remote_slots;
use crate::net::channel::recv_transition;
use crate::net::channel::slots_readable;
use crate::net::channel::send_transition;
use crate::net::channel::shutdown_transition;
use vstd::prelude::*;

pub mod channel;
pub mod frame;

verus! {

/// A packet of information sent through a channel: an owned byte buffer.
pub struct Packet(Vec<u8>);

impl View for Packet {
    type V = Seq<u8>;

    closed spec fn view(&self) -> Seq<u8> {
        self.0@
    }
}

impl Packet {
    /// Wraps a byte buffer as a packet.
    pub fn new(buffer: Vec<u8>) -> (r: Self)
        ensures
            r@ == buffer@,
    {
        Packet(buffer)
    }

    /// The packet's bytes.
    pub fn as_slice(&self) -> (r: &[u8])
        ensures
            r@ == self@,
    {
        self.0.as_slice()
    }

    /// The number of payload bytes.
    pub fn size(&self) -> (r: usize)
        ensures
            r == self@.len(),
    {
        self.0.len()
    }

    /// An empty packet.
    pub fn empty() -> (r: Self)
        ensures
            r@ == Seq::<u8>::empty(),
    {
        let p = Packet(Vec::new());
        proof {
            assert(p@ =~= Seq::<u8>::empty());
        }
        p
    }

    /// An owned copy of the packet.
    pub fn duplicate(&self) -> (r: Self)
        ensures
            r@ == self@,
    {
        let n = self.0.len();
        let mut buffer: Vec<u8> = Vec::with_capacity(n);
        let mut i: usize = 0;
        while i < n
            invariant
                i <= n,
                n == self@.len(),
                buffer@ == self@.subrange(0, i as int),
            decreases n - i,
        {
            buffer.push(self.0[i]);
            proof {
                assert(buffer@ =~= self@.subrange(0, i + 1));
            }
            i = i + 1;
        }
        proof {
            assert(buffer@ =~= self@);
        }
        Packet(buffer)
    }
}

/// A broadcast that stopped at slot `k`: every loopback slot before it
/// received the payload, every slot after it is untouched.
pub open spec fn sends_stopped_at<C>(
    pre: Seq<PartyChannel<C>>,
    post: Seq<PartyChannel<C>>,
    bytes: Seq<u8>,
    k: int,
) -> bool {
    &&& 0 <= k <= pre.len()
    &&& forall|j: int|
        0 <= j < k && (#[trigger] pre[j]) is LoopBack ==> post[j].loop_queue()
            == pre[j].loop_queue().push(bytes)
    &&& forall|j: int| k < j < pre.len() ==> (#[trigger] post[j]) == pre[j]
}

/// A collective receive that stopped at slot `k`: every slot after it
/// is untouched.
pub open spec fn reads_stopped_at<C>(
    pre: Seq<PartyChannel<C>>,
    post: Seq<PartyChannel<C>>,
    k: int,
) -> bool {
    &&& 0 <= k <= pre.len()
    &&& forall|j: int| k < j < pre.len() ==> (#[trigger] post[j]) == pre[j]
}

/// The network of one party: a channel per party, indexed by party ID.
/// The slot at the local party's own ID is the loopback channel.
/// Closing the network is terminal: every later operation fails.
pub struct Network<C> {
    peer_channels: Vec<PartyChannel<C>>,
    closed: bool,
}

impl<C> Network<C> {
    /// The channel slots, indexed by party ID.
    pub closed spec fn channels(self) -> Seq<PartyChannel<C>> {
        self.peer_channels@
    }

    /// Whether the network has been closed.
    pub closed spec fn is_closed(self) -> bool {
        self.closed
    }
}

/// The deterministic connection role toward one peer: dial peers with a
/// smaller ID as a client, accept peers with a larger ID as a server,
/// and loop back at the own slot.
#[derive(Debug, Clone, Copy, PartialEq, Eq, Structural)]
pub enum ConnectionRole {
    /// Dial the peer.
    Client,
    /// Accept the peer's connection.
    Server,
    /// Install the loopback channel.
    SelfLoop,
}

/// Chooses the connection role toward the peer, avoiding double
/// connects: the party with the larger ID dials.
pub fn connection_role(local_id: usize, peer_id: usize) -> (r: ConnectionRole)
    ensures
        peer_id < local_id ==> r == ConnectionRole::Client,
        peer_id > local_id ==> r == ConnectionRole::Server,
        peer_id == local_id ==> r == ConnectionRole::SelfLoop,
{
    if peer_id < local_id {
        ConnectionRole::Client
    } else if peer_id > local_id {
        ConnectionRole::Server
    } else {
        ConnectionRole::SelfLoop
    }
}

impl<C: Channel> Network<C> {
    /// Assembles an open network from an already-established channel per
    /// party, in party-ID order.
    pub fn from_channels(channels: Vec<PartyChannel<C>>) -> (r: Self)
        ensures
            r.channels() == channels@,
            !r.is_closed(),
    {
        Network { peer_channels: channels, closed: false }
    }

    /// The number of parties.
    pub fn n_parties(&self) -> (r: usize)
        ensures
            r == self.channels().len(),
    {
        self.peer_channels.len()
    }

    /// Sends a packet to the given party.
    pub fn send_to(&mut self, packet: &Packet, party_id: usize) -> (r: Result<
        usize,
        ChannelError,
    >)
        requires
            party_id < old(self).channels().len(),
        ensures
            final(self).channels().len() == old(self).channels().len(),
            final(self).is_closed() == old(self).is_closed(),
            old(self).is_closed() ==> (r matches Err(e) && e == ChannelError::Transport
                && final(self).channels() == old(self).channels()),
            !old(self).is_closed() ==> (forall|i: int|
                0 <= i < old(self).channels().len() && i != party_id ==> final(self).channels()[i]
                    == old(self).channels()[i]) && send_transition(
                old(self).channels()[party_id as int],
                final(self).channels()[party_id as int],
                packet@,
                r,
            ),
    {
        if self.closed {
            return Err(ChannelError::Transport);
        }
        let slot = &mut self.peer_channels[party_id];
        slot.send(packet)
    }

    /// Receives a packet from the given party.
    pub fn recv_from(&mut self, party_id: usize) -> (r: Result<Packet, ChannelError>)
        requires
            party_id < old(self).channels().len(),
        ensures
            final(self).channels().len() == old(self).channels().len(),
            final(self).is_closed() == old(self).is_closed(),
            old(self).is_closed() ==> (r matches Err(e) && e == ChannelError::Transport
                && final(self).channels() == old(self).channels()),
            !old(self).is_closed() ==> (forall|i: int|
                0 <= i < old(self).channels().len() && i != party_id ==> final(self).channels()[i]
                    == old(self).channels()[i]) && recv_transition(
                old(self).channels()[party_id as int],
                final(self).channels()[party_id as int],
                r,
            ),
    {
        if self.closed {
            return Err(ChannelError::Transport);
        }
        let slot = &mut self.peer_channels[party_id];
        slot.recv()
    }

    /// Sends a packet to every party in index order, the loopback slot
    /// included.  Stops at the first failing channel; succeeds whenever
    /// no slot is a peer transport and no loopback slot was closed, and
    /// then reports the last slot's byte count.
    pub fn send(&mut self, packet: &Packet) -> (r: Result<usize, ChannelError>)
        ensures
            final(self).channels().len() == old(self).channels().len(),
            final(self).is_closed() == old(self).is_closed(),
            kinds_preserved(old(self).channels(), final(self).channels()),
            old(self).is_closed() ==> (r matches Err(e) && e == ChannelError::Transport
                && final(self).channels() == old(self).channels()),
            forall|i: int|
                0 <= i < old(self).channels().len() && old(self).channels()[i] is LoopBack
                    ==> (#[trigger] final(self).channels()[i]).loop_closed() == old(
                    self,
                ).channels()[i].loop_closed(),
            r is Ok ==> (forall|i: int|
                0 <= i < old(self).channels().len() && (#[trigger] old(self).channels()[i]) is LoopBack ==> ({
                    let pre = old(self).channels()[i];
                    let post = final(self).channels()[i];
                    !pre.loop_closed() && post.loop_queue() == pre.loop_queue().push(packet@)
                })),
            forall|i: int|
                0 <= i < old(self).channels().len() && old(self).channels()[i] is LoopBack ==> {
                    let post = (#[trigger] final(self).channels()[i]).loop_queue();
                    let pre = old(self).channels()[i].loop_queue();
                    post == pre.push(packet@) || post == pre
                },
            !old(self).is_closed() && no_remote_slots(old(self).channels()) && loopbacks_open(
                old(self).channels(),
            ) ==> r is Ok,
            r matches Ok(n) ==> {
                let chs = old(self).channels();
                &&& (chs.len() == 0 ==> n == 0)
                &&& (chs.len() > 0 && chs.last() is LoopBack ==> n == packet@.len())
                &&& (chs.len() > 0 && chs.last() is Dummy ==> n == 0)
            },
            r is Err ==> (exists|k: int|
                #[trigger] sends_stopped_at(
                    old(self).channels(),
                    final(self).channels(),
                    packet@,
                    k,
                )),
    {
        if self.closed {
            proof {
                assert(sends_stopped_at(self.channels(), self.channels(), packet@, 0));
            }
            return Err(ChannelError::Transport);
        }
        let mut bytes_sent: usize = 0;
        let n = self.peer_channels.len();
        let mut i: usize = 0;
        while i < n
            invariant
                i <= n,
                n == old(self).channels().len(),
                self.channels().len() == n,
                !self.is_closed(),
                self.is_closed() == old(self).is_closed(),
                forall|j: int| i <= j < n ==> self.channels()[j] == old(self).channels()[j],
                forall|j: int|
                    0 <= j < n ==> (#[trigger] old(self).channels()[j]).same_kind(
                        self.channels()[j],
                    ),
                forall|j: int|
                    0 <= j < n && old(self).channels()[j] is LoopBack ==> (#[trigger] self.channels()[j]).loop_closed()
                        == old(self).channels()[j].loop_closed(),
                forall|j: int|
                    0 <= j < i && old(self).channels()[j] is LoopBack ==> !(#[trigger] old(
                        self,
                    ).channels()[j]).loop_closed() && self.channels()[j].loop_queue() == old(
                        self,
                    ).channels()[j].loop_queue().push(packet@),
                i > 0 && old(self).channels()[i - 1] is LoopBack ==> bytes_sent == packet@.len(),
                i > 0 && old(self).channels()[i - 1] is Dummy ==> bytes_sent == 0,
                i == 0 ==> bytes_sent == 0,
            decreases n - i,
        {
            let result = self.send_to(packet, i);
            match result {
                Ok(n_bytes) => {
                    bytes_sent = n_bytes;
                },
                Err(e) => {
                    proof {
                        let chs = old(self).channels();
                        if no_remote_slots(chs) && loopbacks_open(chs) {
                            assert(!(chs[i as int] is Remote));
                            assert(chs[i as int] is LoopBack ==> !chs[i as int].loop_closed());
                            assert(false);
                        }
                        assert(sends_stopped_at(chs, self.channels(), packet@, i as int));
                    }
                    return Err(e);
                },
            }
            i = i + 1;
        }
        Ok(bytes_sent)
    }

    /// Receives one packet from every party in index order.  Stops at
    /// the first failing channel; succeeds whenever every slot is an
    /// open loopback queue with a packet waiting or a placeholder.
    pub fn recv(&mut self) -> (r: Result<Vec<Packet>, ChannelError>)
        ensures
            final(self).channels().len() == old(self).channels().len(),
            final(self).is_closed() == old(self).is_closed(),
            kinds_preserved(old(self).channels(), final(self).channels()),
            old(self).is_closed() ==> (r matches Err(e) && e == ChannelError::Transport
                && final(self).channels() == old(self).channels()),
            forall|i: int|
                0 <= i < old(self).channels().len() && old(self).channels()[i] is LoopBack
                    ==> (#[trigger] final(self).channels()[i]).loop_closed() == old(
                    self,
                ).channels()[i].loop_closed(),
            r matches Ok(v) ==> v@.len() == old(self).channels().len() && (forall|i: int|
                0 <= i < old(self).channels().len() ==> ({
                    let pre = #[trigger] old(self).channels()[i];
                    let post = final(self).channels()[i];
                    &&& (pre is LoopBack ==> !pre.loop_closed() && pre.loop_queue().len() > 0
                        && v@[i]@ == pre.loop_queue()[0] && post.loop_queue()
                        == pre.loop_queue().drop_first())
                    &&& (pre is Dummy ==> v@[i]@ == Seq::<u8>::empty())
                })),
            !old(self).is_closed() && slots_readable(old(self).channels()) ==> r is Ok,
            r is Err ==> (exists|k: int|
                #[trigger] reads_stopped_at(old(self).channels(), final(self).channels(), k)),
    {
        if self.closed {
            proof {
                assert(reads_stopped_at(self.channels(), self.channels(), 0));
            }
            return Err(ChannelError::Transport);
        }
        let n = self.peer_channels.len();
        let mut packets: Vec<Packet> = Vec::with_capacity(n);
        let mut i: usize = 0;
        while i < n
            invariant
                i <= n,
                n == old(self).channels().len(),
                self.channels().len() == n,
                !self.is_closed(),
                self.is_closed() == old(self).is_closed(),
                packets@.len() == i,
                forall|j: int| i <= j < n ==> self.channels()[j] == old(self).channels()[j],
                forall|j: int|
                    0 <= j < n ==> (#[trigger] old(self).channels()[j]).same_kind(
                        self.channels()[j],
                    ),
                forall|j: int|
                    0 <= j < n && old(self).channels()[j] is LoopBack ==> (#[trigger] self.channels()[j]).loop_closed()
                        == old(self).channels()[j].loop_closed(),
                forall|j: int|
                    0 <= j < i ==> ({
                        let pre = #[trigger] old(self).channels()[j];
                        let post = self.channels()[j];
                        &&& (pre is LoopBack ==> !pre.loop_closed() && pre.loop_queue().len() > 0
                            && packets@[j]@ == pre.loop_queue()[0] && post.loop_queue()
                            == pre.loop_queue().drop_first())
                        &&& (pre is Dummy ==> packets@[j]@ == Seq::<u8>::empty())
                    }),
            decreases n - i,
        {
            let result = self.recv_from(i);
            match result {
                Ok(packet) => {
                    packets.push(packet);
                },
                Err(e) => {
                    proof {
                        let chs = old(self).channels();
                        if slots_readable(chs) {
                            assert((chs[i as int] is LoopBack && !chs[i as int].loop_closed()
                                && chs[i as int].loop_queue().len() > 0) || chs[i as int] is Dummy);
                            assert(false);
                        }
                        assert(reads_stopped_at(chs, self.channels(), i as int));
                    }
                    return Err(e);
                },
            }
            i = i + 1;
        }
        Ok(packets)
    }

    /// Closes every channel and puts the network in its terminal closed
    /// state: whatever the channels answered, every later operation on
    /// the network fails.
    pub fn close(&mut self) -> (r: Result<(), ChannelError>)
        ensures
            final(self).channels().len() == old(self).channels().len(),
            kinds_preserved(old(self).channels(), final(self).channels()),
            final(self).is_closed(),
            r is Ok ==> (forall|i: int|
                0 <= i < old(self).channels().len() && (#[trigger] old(self).channels()[i]) is LoopBack ==> ({
                    let post = final(self).channels()[i];
                    post.loop_queue().len() == 0 && post.loop_closed()
                })),
            no_remote_slots(old(self).channels()) ==> r is Ok,
    {
        self.closed = true;
        let n = self.peer_channels.len();
        let mut i: usize = 0;
        while i < n
            invariant
                i <= n,
                n == old(self).channels().len(),
                self.channels().len() == n,
                self.is_closed(),
                forall|j: int| i <= j < n ==> self.channels()[j] == old(self).channels()[j],
                forall|j: int|
                    0 <= j < n ==> (#[trigger] old(self).channels()[j]).same_kind(
                        self.channels()[j],
                    ),
                forall|j: int|
                    0 <= j < i && old(self).channels()[j] is LoopBack
                        ==> (#[trigger] self.channels()[j]).loop_queue().len() == 0
                        && self.channels()[j].loop_closed(),
            decreases n - i,
        {
            let slot = &mut self.peer_channels[i];
            let result = slot.shutdown();
            match result {
                Ok(()) => {},
                Err(e) => {
                    proof {
                        let chs = old(self).channels();
                        if no_remote_slots(chs) {
                            assert(!(chs[i as int] is Remote));
                            assert(false);
                        }
                    }
                    return Err(e);
                },
            }
            i = i + 1;
        }
        Ok(())
    }
}

} // verus!

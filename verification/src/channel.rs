//! The channels of a server and the connections to it.

use vstd::prelude::*;
use std::collections::VecDeque;
use bytes::Bytes;
use crate::packet::{contents, serialize_media_packet, MediaPacket, WebTransportMediaPacket};
use crate::table::Table;

verus! {

/// How many packets a channel keeps for players that join.
pub const BUFFERED_PACKETS: usize = 32;

/// What a connection is for.
#[derive(Debug, Clone, Copy, PartialEq, Eq, Structural)]
pub enum ConnectionRole {
    ActivePublisher,
    Player,
}

/// What a channel holds.
#[verifier::ext_equal]
pub struct Channel {
    pub name: Seq<char>,
    /// The last packets, oldest first.
    pub buffer: Seq<MediaPacket>,
    pub active_publisher: Option<Seq<char>>,
}

/// The last of `packets`, as many as a channel keeps.
pub open spec fn last_packets(packets: Seq<MediaPacket>) -> Seq<MediaPacket> {
    if packets.len() > BUFFERED_PACKETS {
        packets.skip(packets.len() - BUFFERED_PACKETS)
    } else {
        packets
    }
}

impl Channel {
    /// A channel that nothing was published to.
    pub open spec fn empty(name: Seq<char>) -> Channel {
        Channel { name, buffer: Seq::empty(), active_publisher: None }
    }

    /// The channel after `packet` was published.
    pub open spec fn published(self, packet: MediaPacket) -> Channel {
        Channel { buffer: last_packets(self.buffer.push(packet)), ..self }
    }

    /// The channel after the connection was removed.
    pub open spec fn without(self, conn_id: Seq<char>) -> Channel {
        Channel {
            active_publisher: if self.active_publisher == Some(conn_id) {
                None
            } else {
                self.active_publisher
            },
            ..self
        }
    }
}

/// A channel: the packets that were published last, and who publishes.
#[derive(Debug)]
pub struct ChannelInfo {
    name: String,
    buffer: VecDeque<WebTransportMediaPacket>,
    active_publisher: Option<String>,
}

impl View for ChannelInfo {
    type V = Channel;

    closed spec fn view(&self) -> Channel {
        Channel {
            name: self.name@,
            buffer: self.buffer@.map_values(|p: WebTransportMediaPacket| p@),
            active_publisher: match self.active_publisher {
                Some(id) => Some(id@),
                None => None,
            },
        }
    }
}

impl ChannelInfo {
    /// A channel that nothing was published to.
    pub fn new(name: String) -> (r: Self)
        ensures
            r@ == Channel::empty(name@),
    {
        let r = ChannelInfo { name, buffer: VecDeque::new(), active_publisher: None };
        assert(r@ =~= Channel::empty(name@));
        r
    }

    /// Makes the connection the one that publishes.
    pub fn set_active_publisher(&mut self, conn_id: String)
        ensures
            final(self)@ == (Channel { active_publisher: Some(conn_id@), ..old(self)@ }),
    {
        self.active_publisher = Some(conn_id);
    }

    /// The connection no longer publishes.
    fn remove_publisher(&mut self, conn_id: &str)
        ensures
            final(self)@ == old(self)@.without(conn_id@),
    {
        let wanted: String = conn_id.to_owned();
        let found: bool = match &self.active_publisher {
            Some(id) => *id == wanted,
            None => false,
        };
        if found {
            self.active_publisher = None;
        }
    }

    /// Adds a packet to the buffer, and drops the oldest where there are too many.
    pub fn publish(&mut self, packet: WebTransportMediaPacket)
        ensures
            final(self)@ == old(self)@.published(packet@),
    {
        let ghost before = self.buffer@;
        self.buffer.push_back(packet);
        let ghost longer = self.buffer@;
        let ghost views = |p: WebTransportMediaPacket| p@;
        let ghost mut dropped: nat = 0;
        while self.buffer.len() > BUFFERED_PACKETS
            invariant
                dropped <= longer.len(),
                self.buffer@ == longer.skip(dropped as int),
                self.name == old(self).name,
                self.active_publisher == old(self).active_publisher,
                dropped > 0 ==> self.buffer@.len() >= BUFFERED_PACKETS,
            decreases self.buffer@.len(),
        {
            let _ = self.buffer.pop_front();
            proof {
                dropped = dropped + 1;
                assert(self.buffer@ =~= longer.skip(dropped as int));
            }
        }
        proof {
            assert(longer.map_values(views) =~= before.map_values(views).push(packet@));
            assert(self.buffer@.map_values(views) =~= last_packets(longer.map_values(views)));
            assert(self@ =~= old(self)@.published(packet@));
        }
    }

    /// The packets of the buffer on the wire, oldest first.
    pub fn backlog(&self) -> (r: Vec<Bytes>)
        ensures
            r@.len() == self@.buffer.len(),
            forall|i: int|
                0 <= i < r@.len() ==> contents(#[trigger] r@[i]) == self@.buffer[i].wire(),
    {
        let mut out: Vec<Bytes> = Vec::new();
        let mut i: usize = 0;
        while i < self.buffer.len()
            invariant
                i <= self.buffer@.len(),
                out@.len() == i,
                forall|k: int|
                    0 <= k < i ==> contents(#[trigger] out@[k]) == self.buffer@[k]@.wire(),
            decreases self.buffer.len() - i,
        {
            out.push(serialize_media_packet(&self.buffer[i]));
            i = i + 1;
        }
        out
    }
}

/// What a server knows of its channels and connections.
#[verifier::ext_equal]
pub struct Registry {
    pub channels: Map<Seq<char>, Channel>,
    pub roles: Map<Seq<char>, ConnectionRole>,
}

impl Registry {
    /// The registry with a channel of that name, which is new where there was none.
    pub open spec fn with_channel(self, name: Seq<char>) -> Registry {
        if self.channels.contains_key(name) {
            self
        } else {
            Registry { channels: self.channels.insert(name, Channel::empty(name)), ..self }
        }
    }

    /// The registry without the connection: it has no role and publishes to no channel.
    pub open spec fn without(self, conn_id: Seq<char>) -> Registry {
        Registry {
            channels: self.channels.map_values(|c: Channel| c.without(conn_id)),
            roles: self.roles.remove(conn_id),
        }
    }
}

/// The channels of a server, and the roles of the connections to it.
#[derive(Debug)]
pub struct ChannelManager {
    channels: Table<ChannelInfo>,
    roles: Table<ConnectionRole>,
}

impl View for ChannelManager {
    type V = Registry;

    closed spec fn view(&self) -> Registry {
        Registry {
            channels: self.channels@.map_values(|c: ChannelInfo| c@),
            roles: self.roles@,
        }
    }
}

impl ChannelManager {
    /// The tables are in order.
    pub closed spec fn wf(&self) -> bool {
        self.channels.wf() && self.roles.wf()
    }

    /// A server without channels and connections.
    pub fn new() -> (r: Self)
        ensures
            r.wf(),
            r@ == (Registry { channels: Map::empty(), roles: Map::empty() }),
    {
        let r = ChannelManager { channels: Table::new(), roles: Table::new() };
        assert(r@ =~= Registry { channels: Map::empty(), roles: Map::empty() });
        r
    }

    /// Makes sure that there is a channel of that name.
    pub fn open_channel(&mut self, name: &str)
        requires
            old(self).wf(),
        ensures
            final(self).wf(),
            final(self)@ == old(self)@.with_channel(name@),
    {
        if self.channels.get(name).is_none() {
            self.channels.insert(name, ChannelInfo::new(name.to_owned()));
        }
        assert(self@ =~= old(self)@.with_channel(name@));
    }

    /// Gives the connection a role.
    pub fn set_connection_role(&mut self, conn_id: &str, role: ConnectionRole)
        requires
            old(self).wf(),
        ensures
            final(self).wf(),
            final(self)@ == (Registry {
                roles: old(self)@.roles.insert(conn_id@, role),
                ..old(self)@
            }),
    {
        self.roles.insert(conn_id, role);
    }

    /// Makes the connection the one that publishes to the channel, where there is one.
    pub fn set_active_publisher(&mut self, name: &str, conn_id: &str)
        requires
            old(self).wf(),
        ensures
            final(self).wf(),
            final(self)@ == if old(self)@.channels.contains_key(name@) {
                Registry {
                    channels: old(self)@.channels.insert(
                        name@,
                        Channel {
                            active_publisher: Some(conn_id@),
                            ..old(self)@.channels[name@]
                        },
                    ),
                    ..old(self)@
                }
            } else {
                old(self)@
            },
    {
        match self.channels.remove(name) {
            Some(mut channel) => {
                channel.set_active_publisher(conn_id.to_owned());
                self.channels.insert(name, channel);
                assert(self@.channels =~= old(self)@.channels.insert(name@, channel@));
            },
            None => {
                assert(self@.channels =~= old(self)@.channels);
            },
        }
    }

    /// Adds the packet to the channel, where there is one.
    pub fn publish(&mut self, name: &str, packet: WebTransportMediaPacket) -> (found: bool)
        requires
            old(self).wf(),
        ensures
            final(self).wf(),
            found == old(self)@.channels.contains_key(name@),
            final(self)@ == if found {
                Registry {
                    channels: old(self)@.channels.insert(
                        name@,
                        old(self)@.channels[name@].published(packet@),
                    ),
                    ..old(self)@
                }
            } else {
                old(self)@
            },
    {
        match self.channels.remove(name) {
            Some(mut channel) => {
                channel.publish(packet);
                self.channels.insert(name, channel);
                assert(self@.channels =~= old(self)@.channels.insert(name@, channel@));
                true
            },
            None => {
                assert(self@.channels =~= old(self)@.channels);
                false
            },
        }
    }

    /// The packets of the channel on the wire, oldest first, where there is a channel.
    pub fn backlog(&self, name: &str) -> (r: Option<Vec<Bytes>>)
        requires
            self.wf(),
        ensures
            match r {
                Some(data) => self@.channels.contains_key(name@) && data@.len()
                    == self@.channels[name@].buffer.len() && forall|i: int|
                    0 <= i < data@.len() ==> contents(#[trigger] data@[i])
                        == self@.channels[name@].buffer[i].wire(),
                None => !self@.channels.contains_key(name@),
            },
    {
        match self.channels.get(name) {
            Some(channel) => Some(channel.backlog()),
            None => None,
        }
    }

    /// Forgets the connection.
    pub fn remove_connection(&mut self, conn_id: &str)
        requires
            old(self).wf(),
        ensures
            final(self).wf(),
            final(self)@ == old(self)@.without(conn_id@),
    {
        let _ = self.roles.remove(conn_id);
        let mut kept: Table<ChannelInfo> = Table::new();
        let ghost before = self.channels@;
        while self.channels.len() > 0
            invariant
                self.channels.wf(),
                kept.wf(),
                self.roles.wf(),
                self.roles@ == old(self).roles@.remove(conn_id@),
                before == old(self).channels@,
                forall|k: Seq<char>| #[trigger]
                    before.contains_key(k) <==> self.channels@.contains_key(k)
                        || kept@.contains_key(k),
                forall|k: Seq<char>| #[trigger]
                    self.channels@.contains_key(k) ==> self.channels@[k] == before[k]
                        && !kept@.contains_key(k),
                forall|k: Seq<char>| #[trigger]
                    kept@.contains_key(k) ==> kept@[k]@ == before[k]@.without(conn_id@),
            decreases self.channels.names().len(),
        {
            let name: String = self.channels.name(0);
            proof {
                self.channels.lemma_names();
                assert(self.channels.names().contains(name@));
            }
            match self.channels.remove(name.as_str()) {
                Some(mut channel) => {
                    channel.remove_publisher(conn_id);
                    kept.insert(name.as_str(), channel);
                },
                None => {},
            }
        }
        proof {
            self.channels.lemma_names();
            let m = kept@.map_values(|c: ChannelInfo| c@);
            let n = old(self)@.without(conn_id@).channels;
            assert forall|k: Seq<char>|
                #![trigger m.dom().contains(k)]
                #![trigger n.dom().contains(k)]
                #![trigger n[k]]
                m.dom().contains(k) == n.dom().contains(k) && (n.dom().contains(k) ==> m[k]
                    == n[k]) by {
                assert(!self.channels.names().contains(k));
                assert(!self.channels@.contains_key(k));
                assert(before.contains_key(k) <==> kept@.contains_key(k));
            }
            assert(m =~= n);
        }
        self.channels = kept;
    }
}

/// The channel after `packets` were published, one after the other.
pub open spec fn published_all(channel: Channel, packets: Seq<MediaPacket>) -> Channel
    decreases packets.len(),
{
    if packets.len() == 0 {
        channel
    } else {
        published_all(channel, packets.drop_last()).published(packets.last())
    }
}

/// A channel keeps the packets that were published last, in the order in which they
/// were published.
pub proof fn law_buffer_is_last(name: Seq<char>, packets: Seq<MediaPacket>)
    ensures
        published_all(Channel::empty(name), packets).buffer == last_packets(packets),
    decreases packets.len(),
{
    if packets.len() > 0 {
        law_buffer_is_last(name, packets.drop_last());
        assert(last_packets(last_packets(packets.drop_last()).push(packets.last()))
            =~= last_packets(packets));
    }
}

/// A connection that is removed has no role and publishes to no channel. The other
/// connections keep their roles, and no packet is lost.
pub proof fn law_removed_is_gone(r: Registry, conn_id: Seq<char>, other: Seq<char>, name: Seq<char>)
    requires
        other != conn_id,
        r.channels.contains_key(name),
    ensures
        !r.without(conn_id).roles.contains_key(conn_id),
        r.without(conn_id).channels[name].active_publisher != Some(conn_id),
        r.roles.contains_key(other) ==> r.without(conn_id).roles.contains_key(other) && r.without(
            conn_id,
        ).roles[other] == r.roles[other],
        r.without(conn_id).channels.contains_key(name),
        r.without(conn_id).channels[name].buffer == r.channels[name].buffer,
{
}

/// A packet that is published comes last in the buffer of the channel. The others keep
/// their order; the oldest is dropped exactly if there were thirty-two. The name of the
/// channel and its publisher stay.
pub proof fn law_publishing_adds_to_buffer(c: Channel, packet: MediaPacket)
    requires
        c.buffer.len() <= 32,
    ensures
        ({
            let after = c.published(packet);
            &&& after.name == c.name
            &&& after.active_publisher == c.active_publisher
            &&& after.buffer.len() == if c.buffer.len() < 32 {
                c.buffer.len() + 1
            } else {
                32
            }
            &&& after.buffer.last() == packet
            &&& forall|i: int|
                0 <= i < after.buffer.len() - 1 ==> #[trigger] after.buffer[i] == c.buffer[i
                    + c.buffer.len() + 1 - after.buffer.len()]
        }),
{
}

/// Of many packets a channel keeps the last thirty-two, of fewer all.
pub proof fn law_thirty_two_are_kept(packets: Seq<MediaPacket>)
    ensures
        last_packets(packets).len() == if packets.len() < 32 {
            packets.len()
        } else {
            32
        },
        forall|i: int|
            0 <= i < last_packets(packets).len() ==> #[trigger] last_packets(packets)[i]
                == packets[i + packets.len() - last_packets(packets).len()],
{
}

/// Opening a channel changes nothing where there is one of that name. Where there is none,
/// there is then one, empty and without a publisher, and the other channels stay as they
/// are. The roles stay in any case.
pub proof fn law_opening_makes_empty_channel(r: Registry, name: Seq<char>, other: Seq<char>)
    ensures
        ({
            let after = r.with_channel(name);
            &&& after.roles == r.roles
            &&& after.channels.contains_key(name)
            &&& r.channels.contains_key(name) ==> after.channels[name] == r.channels[name]
            &&& !r.channels.contains_key(name) ==> after.channels[name].buffer.len() == 0
                && after.channels[name].active_publisher is None && after.channels[name].name
                == name
            &&& other != name ==> (after.channels.contains_key(other) <==> r.channels.contains_key(
                other,
            ))
            &&& other != name && r.channels.contains_key(other) ==> after.channels[other]
                == r.channels[other]
        }),
{
}

/// Removing a connection opens and closes no channel. It takes away the publisher of those
/// to which the connection published, and nothing else of any channel, and the role of the
/// connection, and no other.
pub proof fn law_removal_leaves_the_rest(
    r: Registry,
    conn_id: Seq<char>,
    other: Seq<char>,
    name: Seq<char>,
)
    ensures
        ({
            let after = r.without(conn_id);
            &&& after.channels.contains_key(name) <==> r.channels.contains_key(name)
            &&& r.channels.contains_key(name) ==> {
                &&& after.channels[name].name == r.channels[name].name
                &&& after.channels[name].buffer == r.channels[name].buffer
                &&& r.channels[name].active_publisher == Some(conn_id)
                    ==> after.channels[name].active_publisher is None
                &&& r.channels[name].active_publisher != Some(conn_id)
                    ==> after.channels[name].active_publisher == r.channels[name].active_publisher
            }
            &&& !after.roles.contains_key(conn_id)
            &&& other != conn_id ==> (after.roles.contains_key(other) <==> r.roles.contains_key(
                other,
            ))
            &&& other != conn_id && r.roles.contains_key(other) ==> after.roles[other]
                == r.roles[other]
        }),
{
}

} // verus!

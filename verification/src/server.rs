//! The server: who may publish, what is passed on, and what players are sent.

use vstd::prelude::*;
use bytes::Bytes;
use crate::address::PUBLISHER_PATH;
use crate::channel::{Channel, ChannelManager, ConnectionRole, Registry, BUFFERED_PACKETS};
use crate::client::{ClientEvent, ClientState, ClientStep};
use crate::error::VqdError;
use crate::packet::{
    bytes_clone, contents, law_wire_identifies, serialize_media_packet, MediaPacket, WebTransportMediaPacket, MALFORMED,
};
use crate::segments::lemma_decimal;
use crate::text::{decimal, ends_with, has_suffix, push_decimal};

verus! {

/// The one channel that is served.
pub const CHANNEL_NAME: &'static str = "/live";

/// The most bytes that a packet of a publisher may have.
pub const MAX_PACKET_BYTES: usize = 2_000_000;

/// The role of a connection to `path`.
pub open spec fn role_of(path: Seq<char>) -> ConnectionRole {
    if ends_with(path, PUBLISHER_PATH@) {
        ConnectionRole::ActivePublisher
    } else {
        ConnectionRole::Player
    }
}

/// The id of the connection that was accepted as number `n`.
pub open spec fn connection_id(n: nat) -> Seq<char> {
    "conn-"@ + decimal(n)
}

/// The role of a connection to `path`: a path that ends with `/pub` is for publishers.
pub fn connection_role(path: &str) -> (role: ConnectionRole)
    ensures
        role == role_of(path@),
{
    if has_suffix(path, PUBLISHER_PATH) {
        ConnectionRole::ActivePublisher
    } else {
        ConnectionRole::Player
    }
}

/// A connection that was accepted.
#[derive(Debug)]
pub struct Admission {
    pub conn_id: String,
    pub role: ConnectionRole,
}

/// Counts the connections that are accepted.
#[derive(Debug)]
pub struct Acceptor {
    next_id: u32,
}

impl Acceptor {
    /// How many connections were accepted.
    pub closed spec fn accepted(&self) -> nat {
        self.next_id as nat
    }

    /// No connection was accepted.
    pub fn new() -> (r: Self)
        ensures
            r.accepted() == 0,
    {
        Acceptor { next_id: 0 }
    }

    /// Whether there is an id for another connection.
    pub fn can_accept(&self) -> (r: bool)
        ensures
            r == (self.accepted() < i32::MAX),
    {
        self.next_id < i32::MAX as u32
    }

    /// Accepts a connection to `path`. The ids count up, whether or not a session comes of
    /// the connection.
    pub fn accept(&mut self, path: &str) -> (r: Admission)
        requires
            old(self).accepted() < i32::MAX,
        ensures
            final(self).accepted() == old(self).accepted() + 1,
            r.conn_id@ == connection_id(old(self).accepted()),
            r.role == role_of(path@),
    {
        let mut conn_id: String = "conn-".to_owned();
        push_decimal(&mut conn_id, self.next_id as u64);
        self.next_id = self.next_id + 1;
        Admission { conn_id, role: connection_role(path) }
    }
}

impl Registry {
    /// The registry after the connection has been registered: the channel is there, the
    /// connection has its role, and a publisher is the one that publishes to the channel.
    pub open spec fn registered(self, conn_id: Seq<char>, role: ConnectionRole) -> Registry {
        let opened = self.with_channel(CHANNEL_NAME@);
        Registry {
            channels: if role == ConnectionRole::ActivePublisher {
                opened.channels.insert(
                    CHANNEL_NAME@,
                    Channel {
                        active_publisher: Some(conn_id),
                        ..opened.channels[CHANNEL_NAME@]
                    },
                )
            } else {
                opened.channels
            },
            roles: self.roles.insert(conn_id, role),
        }
    }

    /// The registry after `packet` has been published, which is lost where there is no
    /// channel.
    pub open spec fn published(self, packet: MediaPacket) -> Registry {
        if self.channels.contains_key(CHANNEL_NAME@) {
            Registry {
                channels: self.channels.insert(
                    CHANNEL_NAME@,
                    self.channels[CHANNEL_NAME@].published(packet),
                ),
                ..self
            }
        } else {
            self
        }
    }
}

/// Registers a connection with which a session was established.
pub fn register(manager: &mut ChannelManager, conn_id: &str, role: ConnectionRole)
    requires
        old(manager).wf(),
    ensures
        final(manager).wf(),
        final(manager)@ == old(manager)@.registered(conn_id@, role),
{
    manager.open_channel(CHANNEL_NAME);
    manager.set_connection_role(conn_id, role);
    if role == ConnectionRole::ActivePublisher {
        manager.set_active_publisher(CHANNEL_NAME, conn_id);
    }
    assert(manager@ =~= old(manager)@.registered(conn_id@, role));
}

/// Takes what a publisher sent on a stream. A packet is added to the channel, and what is
/// to be sent to the players is handed back; there is nothing to send where there is no
/// channel. Bytes that are no packet are an error and change nothing.
pub fn handle_packet(manager: &mut ChannelManager, data: &[u8]) -> (r: Result<
    Option<Bytes>,
    VqdError,
>)
    requires
        old(manager).wf(),
    ensures
        final(manager).wf(),
        forall|p: MediaPacket| #[trigger]
            p.wire() == data@ ==> r is Ok && final(manager)@ == old(manager)@.published(p),
        match r {
            Ok(Some(sent)) => old(manager)@.channels.contains_key(CHANNEL_NAME@) && contents(sent)
                == data@,
            Ok(None) => !old(manager)@.channels.contains_key(CHANNEL_NAME@),
            Err(e) => e.is_other(MALFORMED@) && final(manager)@ == old(manager)@,
        },
        r is Ok ==> exists|p: MediaPacket| #[trigger] p.wire() == data@,
{
    match WebTransportMediaPacket::parse(data) {
        Ok(packet) => {
            let sent: Bytes = serialize_media_packet(&packet);
            assert(packet@.wire() == data@);
            if manager.publish(CHANNEL_NAME, packet) {
                Ok(Some(sent))
            } else {
                Ok(None)
            }
        },
        Err(e) => Err(e),
    }
}

/// What a player is sent first: the packets that the channel keeps, oldest first. There
/// is none where there is no channel.
pub fn join(manager: &ChannelManager) -> (r: Option<PlayerFeed>)
    requires
        manager.wf(),
    ensures
        match r {
            Some(feed) => manager@.channels.contains_key(CHANNEL_NAME@) && feed.wf() && feed@
                == FeedState::initial(
                manager@.channels[CHANNEL_NAME@].buffer.map_values(|p: MediaPacket| p.wire()),
            ),
            None => !manager@.channels.contains_key(CHANNEL_NAME@),
        },
{
    match manager.backlog(CHANNEL_NAME) {
        Some(backlog) => {
            let feed = PlayerFeed { backlog, next: 0, phase: FeedPhase::Idle };
            assert(feed@.backlog =~= manager@.channels[CHANNEL_NAME@].buffer.map_values(
                |p: MediaPacket| p.wire(),
            ));
            Some(feed)
        },
        None => None,
    }
}

/// What the feed of a player is waiting for.
#[derive(Debug, Clone, Copy, PartialEq, Eq, Structural)]
pub enum FeedPhase {
    /// The beginning.
    Idle,
    /// The outcome of sending.
    Sending,
    /// A packet that is published.
    Receiving,
    /// Nothing: the feed has ended.
    Ended,
}

/// What happens to the feed of a player.
#[derive(Debug)]
pub enum FeedEvent {
    /// The feed begins.
    Begin,
    /// The data was sent.
    Sent,
    /// The data could not be sent.
    SendFailed,
    /// A packet was published.
    Published(Bytes),
    /// Nothing more is published, or the player was too slow for it.
    Closed,
}

/// What the feed of a player does next.
#[derive(Debug)]
pub enum FeedAction {
    /// Send this.
    Send(Bytes),
    /// Wait for what is published.
    Receive,
    /// End.
    End,
}

/// What an action says.
pub enum FeedStep {
    Send(Seq<u8>),
    Receive,
    End,
}

impl View for FeedAction {
    type V = FeedStep;

    open spec fn view(&self) -> FeedStep {
        match self {
            FeedAction::Send(data) => FeedStep::Send(contents(*data)),
            FeedAction::Receive => FeedStep::Receive,
            FeedAction::End => FeedStep::End,
        }
    }
}

/// What the feed of a player knows.
#[verifier::ext_equal]
pub struct FeedState {
    /// The packets that the channel kept when the player joined.
    pub backlog: Seq<Seq<u8>>,
    /// Which of them comes next.
    pub next: nat,
    pub phase: FeedPhase,
}

impl FeedState {
    /// A feed that has sent nothing.
    pub open spec fn initial(backlog: Seq<Seq<u8>>) -> FeedState {
        FeedState { backlog, next: 0, phase: FeedPhase::Idle }
    }

    /// The backlog has been sent when the feed waits for what is published.
    pub open spec fn wf(self) -> bool {
        &&& self.next <= self.backlog.len()
        &&& self.phase == FeedPhase::Receiving ==> self.next == self.backlog.len()
    }

    /// The event can happen in the phase of the feed.
    pub open spec fn admits(self, event: FeedEvent) -> bool {
        match event {
            FeedEvent::Begin => self.phase == FeedPhase::Idle,
            FeedEvent::Sent | FeedEvent::SendFailed => self.phase == FeedPhase::Sending,
            FeedEvent::Published(_) | FeedEvent::Closed => self.phase == FeedPhase::Receiving,
        }
    }

    /// The feed after `event`, and what it does next.
    pub open spec fn step(self, event: FeedEvent) -> (FeedState, FeedStep) {
        match event {
            FeedEvent::Begin | FeedEvent::Sent => if self.next < self.backlog.len() {
                (
                    FeedState { phase: FeedPhase::Sending, next: self.next + 1, ..self },
                    FeedStep::Send(self.backlog[self.next as int]),
                )
            } else {
                (FeedState { phase: FeedPhase::Receiving, ..self }, FeedStep::Receive)
            },
            FeedEvent::Published(data) => (
                FeedState { phase: FeedPhase::Sending, ..self },
                FeedStep::Send(contents(data)),
            ),
            FeedEvent::SendFailed | FeedEvent::Closed => (
                FeedState { phase: FeedPhase::Ended, ..self },
                FeedStep::End,
            ),
        }
    }

    /// The feed after `events`.
    pub open spec fn after(self, events: Seq<FeedEvent>) -> FeedState
        decreases events.len(),
    {
        if events.len() == 0 {
            self
        } else {
            self.after(events.drop_last()).step(events.last()).0
        }
    }

    /// Each of `events` can happen after those before it.
    pub open spec fn admits_all(self, events: Seq<FeedEvent>) -> bool
        decreases events.len(),
    {
        events.len() > 0 ==> self.admits_all(events.drop_last()) && self.after(
            events.drop_last(),
        ).admits(events.last())
    }

    /// What is sent in the course of `events`.
    pub open spec fn sent(self, events: Seq<FeedEvent>) -> Seq<Seq<u8>>
        decreases events.len(),
    {
        if events.len() == 0 {
            Seq::empty()
        } else {
            let before = self.sent(events.drop_last());
            match self.after(events.drop_last()).step(events.last()).1 {
                FeedStep::Send(data) => before.push(data),
                _ => before,
            }
        }
    }
}

/// The feed of a player: first the backlog, then what is published.
#[derive(Debug)]
pub struct PlayerFeed {
    backlog: Vec<Bytes>,
    next: usize,
    phase: FeedPhase,
}

impl View for PlayerFeed {
    type V = FeedState;

    closed spec fn view(&self) -> FeedState {
        FeedState {
            backlog: self.backlog@.map_values(|b: Bytes| contents(b)),
            next: self.next as nat,
            phase: self.phase,
        }
    }
}

impl PlayerFeed {
    /// The parts of the feed fit together.
    pub open spec fn wf(&self) -> bool {
        self@.wf()
    }

    /// Takes the feed from one event to the next action.
    pub fn next(&mut self, event: FeedEvent) -> (action: FeedAction)
        requires
            old(self).wf(),
            old(self)@.admits(event),
        ensures
            final(self).wf(),
            (final(self)@, action@) == old(self)@.step(event),
    {
        match event {
            FeedEvent::Begin | FeedEvent::Sent => {
                if self.next < self.backlog.len() {
                    let data: Bytes = bytes_clone(&self.backlog[self.next]);
                    self.next = self.next + 1;
                    self.phase = FeedPhase::Sending;
                    FeedAction::Send(data)
                } else {
                    self.phase = FeedPhase::Receiving;
                    FeedAction::Receive
                }
            },
            FeedEvent::Published(data) => {
                self.phase = FeedPhase::Sending;
                FeedAction::Send(data)
            },
            FeedEvent::SendFailed | FeedEvent::Closed => {
                self.phase = FeedPhase::Ended;
                FeedAction::End
            },
        }
    }
}

/// What was published in the course of `events`.
pub open spec fn published_in(events: Seq<FeedEvent>) -> Seq<Seq<u8>>
    decreases events.len(),
{
    if events.len() == 0 {
        Seq::empty()
    } else {
        let before = published_in(events.drop_last());
        match events.last() {
            FeedEvent::Published(data) => before.push(contents(data)),
            _ => before,
        }
    }
}

proof fn lemma_feed(backlog: Seq<Seq<u8>>, events: Seq<FeedEvent>)
    requires
        FeedState::initial(backlog).admits_all(events),
    ensures
        ({
            let s = FeedState::initial(backlog);
            let now = s.after(events);
            &&& now.wf()
            &&& now.backlog == backlog
            &&& published_in(events).len() > 0 ==> now.next == backlog.len()
            &&& s.sent(events) == backlog.take(now.next as int) + published_in(events)
        }),
    decreases events.len(),
{
    let s = FeedState::initial(backlog);
    if events.len() > 0 {
        let front = events.drop_last();
        lemma_feed(backlog, front);
        let before = s.after(front);
        let now = s.after(events);
        if now.next > before.next {
            assert(backlog.take(now.next as int) =~= backlog.take(before.next as int).push(
                backlog[before.next as int],
            ));
        }
        assert(s.sent(events) =~= backlog.take(now.next as int) + published_in(events));
    } else {
        assert(s.sent(events) =~= backlog.take(0) + published_in(events));
    }
}

/// A player is sent the packets that the channel kept, from the oldest on, and after all
/// of them what is published, each in order and nothing else.
pub proof fn law_feed_in_order(backlog: Seq<Seq<u8>>, events: Seq<FeedEvent>)
    requires
        FeedState::initial(backlog).admits_all(events),
    ensures
        FeedState::initial(backlog).sent(events).is_prefix_of(backlog + published_in(events)),
        published_in(events).len() > 0 ==> FeedState::initial(backlog).sent(events) == backlog
            + published_in(events),
{
    lemma_feed(backlog, events);
    let now = FeedState::initial(backlog).after(events);
    if published_in(events).len() > 0 {
        assert(backlog.take(now.next as int) =~= backlog);
    }
}

/// No two connections have the same id.
pub proof fn law_ids_distinct(a: nat, b: nat)
    requires
        connection_id(a) == connection_id(b),
    ensures
        a == b,
{
    lemma_decimal(a);
    lemma_decimal(b);
    let n = "conn-"@.len() as int;
    assert(connection_id(a).skip(n) =~= decimal(a));
    assert(connection_id(b).skip(n) =~= decimal(b));
}

/// A publisher that connects to an address whose path ends with `/pub` is taken for a
/// publisher, and becomes the one that publishes to the channel.
pub proof fn law_publisher_is_registered(r: Registry, path: Seq<char>, conn_id: Seq<char>)
    requires
        ends_with(path, PUBLISHER_PATH@),
    ensures
        ({
            let after = r.registered(conn_id, role_of(path));
            &&& after.channels.contains_key(CHANNEL_NAME@)
            &&& after.channels[CHANNEL_NAME@].active_publisher == Some(conn_id)
            &&& after.roles.contains_key(conn_id)
            &&& after.roles[conn_id] == ConnectionRole::ActivePublisher
        }),
{
}

/// A packet that is published to the channel is the last that a player who joins then is
/// sent of the backlog, which is not too long.
pub proof fn law_published_is_buffered(r: Registry, packet: MediaPacket)
    requires
        r.channels.contains_key(CHANNEL_NAME@),
    ensures
        ({
            let buffer = r.published(packet).channels[CHANNEL_NAME@].buffer;
            &&& 0 < buffer.len() <= BUFFERED_PACKETS
            &&& buffer.last() == packet
        }),
{
}

/// A packet that the client of a publisher sends is the packet that the server reads, and
/// the last that a player who joins then is sent of the backlog, byte for byte as it was
/// sent.
pub proof fn law_packet_reaches_player(
    client: ClientState,
    packet: WebTransportMediaPacket,
    received: MediaPacket,
    r: Registry,
)
    requires
        client.connection_ready,
        packet@.lengths_fit(),
        received.lengths_fit(),
        client.step(ClientEvent::Packet(packet)).1 == ClientStep::Send(received.wire()),
        r.channels.contains_key(CHANNEL_NAME@),
    ensures
        received == packet@,
        r.published(received).channels[CHANNEL_NAME@].buffer.last() == packet@,
        r.published(received).channels[CHANNEL_NAME@].buffer.map_values(
            |p: MediaPacket| p.wire(),
        ).last() == received.wire(),
{
    law_wire_identifies(packet@, received);
}

/// The feed of a player ends exactly when something could not be sent or the publishing is
/// over. It does not end otherwise, however many packets the channel kept.
pub proof fn law_feed_ends_only_on_failure(s: FeedState, event: FeedEvent)
    ensures
        s.step(event).1 is End <==> event is SendFailed || event is Closed,
        s.step(event).1 is End <==> s.step(event).0.phase == FeedPhase::Ended,
{
}

/// The feed waits for what is published exactly when it has nothing of the backlog left to
/// send: at the beginning, after the last packet of the backlog and after each packet that
/// was published.
pub proof fn law_feed_waits_after_backlog(s: FeedState, event: FeedEvent)
    requires
        s.wf(),
        s.admits(event),
    ensures
        s.step(event).1 is Receive <==> (event is Begin || event is Sent) && s.next
            == s.backlog.len(),
        s.step(event).1 is Receive <==> s.step(event).0.phase == FeedPhase::Receiving,
{
}

/// The feed sends the next packet of the backlog while there is one, and else what is
/// published when it is published.
pub proof fn law_feed_sends_next(s: FeedState, event: FeedEvent)
    requires
        s.wf(),
        s.admits(event),
    ensures
        ({
            let (after, step) = s.step(event);
            let from_backlog = (event is Begin || event is Sent) && s.next < s.backlog.len();
            &&& after.wf()
            &&& after.backlog == s.backlog
            &&& step is Send <==> from_backlog || event is Published
            &&& step is Send <==> after.phase == FeedPhase::Sending
            &&& from_backlog ==> step == FeedStep::Send(s.backlog[s.next as int]) && after.next
                == s.next + 1
            &&& !from_backlog ==> after.next == s.next
            &&& event matches FeedEvent::Published(data) ==> step == FeedStep::Send(contents(data))
        }),
{
}

/// Each event is expected in one phase of the feed, which begins with nothing sent.
pub proof fn law_feed_expected_events(s: FeedState, event: FeedEvent)
    ensures
        s.admits(event) <==> match s.phase {
            FeedPhase::Idle => event is Begin,
            FeedPhase::Sending => event is Sent || event is SendFailed,
            FeedPhase::Receiving => event is Published || event is Closed,
            FeedPhase::Ended => false,
        },
        FeedState::initial(s.backlog).phase == FeedPhase::Idle,
        FeedState::initial(s.backlog).next == 0,
        FeedState::initial(s.backlog).backlog == s.backlog,
{
}

/// When the feed waits for what is published, the player has been sent the whole backlog
/// and all that was published. A feed that was not told of a failure or of the end of the
/// publishing has not ended.
pub proof fn law_feed_delivers_all(backlog: Seq<Seq<u8>>, events: Seq<FeedEvent>)
    requires
        FeedState::initial(backlog).admits_all(events),
    ensures
        ({
            let s = FeedState::initial(backlog);
            &&& s.after(events).phase == FeedPhase::Receiving ==> s.sent(events) == backlog
                + published_in(events)
            &&& s.after(events).phase == FeedPhase::Ended <==> events.len() > 0 && (
            events.last() is SendFailed || events.last() is Closed)
        }),
{
    lemma_feed(backlog, events);
    let s = FeedState::initial(backlog);
    if s.after(events).phase == FeedPhase::Receiving {
        assert(backlog.take(backlog.len() as int) =~= backlog);
    }
    if events.len() > 0 {
        law_feed_ends_only_on_failure(s.after(events.drop_last()), events.last());
    }
}

/// A connection is taken for a publisher exactly if its path ends with `/pub`; every other
/// is that of a player.
pub proof fn law_only_pub_publishes(path: Seq<char>)
    ensures
        ({
            let n = path.len() as int;
            let ends = n >= 4 && path[n - 4] == '/' && path[n - 3] == 'p' && path[n - 2] == 'u'
                && path[n - 1] == 'b';
            &&& ends ==> role_of(path) == ConnectionRole::ActivePublisher
            &&& !ends ==> role_of(path) == ConnectionRole::Player
        }),
{
    reveal_strlit("/pub");
    let n = path.len() as int;
    if n >= 4 {
        let tail = path.subrange(n - 4, n);
        assert(tail[0] == path[n - 4] && tail[1] == path[n - 3] && tail[2] == path[n - 2] && tail[3]
            == path[n - 1]);
        if path[n - 4] == '/' && path[n - 3] == 'p' && path[n - 2] == 'u' && path[n - 1] == 'b' {
            assert(tail =~= "/pub"@);
        }
    }
}

/// Registering a player leaves the publisher of the channel as it was: where its path does
/// not end with `/pub`, who publishes to `/live` does so still, and nobody does to a
/// channel that is new.
pub proof fn law_player_does_not_publish(r: Registry, path: Seq<char>, conn_id: Seq<char>)
    requires
        !ends_with(path, "/pub"@),
    ensures
        ({
            let after = r.registered(conn_id, role_of(path));
            &&& after.channels.contains_key("/live"@)
            &&& r.channels.contains_key("/live"@) ==> after.channels["/live"@]
                == r.channels["/live"@]
            &&& !r.channels.contains_key("/live"@)
                ==> after.channels["/live"@].active_publisher is None
            &&& after.roles.contains_key(conn_id)
            &&& after.roles[conn_id] == ConnectionRole::Player
        }),
{
}

/// Registering a connection makes sure of the channel `/live`, gives the connection its
/// role, and makes it the publisher of the channel exactly if that is its role. The packets
/// of the channel stay, and so do the other channels and the roles of the others.
pub proof fn law_registration_leaves_the_rest(
    r: Registry,
    conn_id: Seq<char>,
    role: ConnectionRole,
    other: Seq<char>,
    name: Seq<char>,
)
    ensures
        ({
            let after = r.registered(conn_id, role);
            let live = after.channels["/live"@];
            let had = r.channels.contains_key("/live"@);
            &&& after.channels.contains_key("/live"@)
            &&& live.name == if had {
                r.channels["/live"@].name
            } else {
                "/live"@
            }
            &&& live.buffer == if had {
                r.channels["/live"@].buffer
            } else {
                Seq::empty()
            }
            &&& role == ConnectionRole::ActivePublisher ==> live.active_publisher == Some(conn_id)
            &&& role == ConnectionRole::Player ==> live.active_publisher == if had {
                r.channels["/live"@].active_publisher
            } else {
                None
            }
            &&& after.roles.contains_key(conn_id)
            &&& after.roles[conn_id] == role
            &&& other != conn_id ==> (after.roles.contains_key(other) <==> r.roles.contains_key(
                other,
            ))
            &&& other != conn_id && r.roles.contains_key(other) ==> after.roles[other]
                == r.roles[other]
            &&& name != "/live"@ ==> (after.channels.contains_key(name) <==> r.channels.contains_key(
                name,
            ))
            &&& name != "/live"@ && r.channels.contains_key(name) ==> after.channels[name]
                == r.channels[name]
        }),
{
}

/// A packet goes to the channel `/live` and to no other, and changes no role. Where there
/// is no such channel it is lost.
pub proof fn law_packet_goes_to_live(r: Registry, packet: MediaPacket, name: Seq<char>)
    ensures
        ({
            let after = r.published(packet);
            &&& after.roles == r.roles
            &&& !r.channels.contains_key("/live"@) ==> after == r
            &&& after.channels.contains_key(name) <==> r.channels.contains_key(name)
            &&& name != "/live"@ && r.channels.contains_key(name) ==> after.channels[name]
                == r.channels[name]
            &&& r.channels.contains_key("/live"@) ==> {
                let c = r.channels["/live"@];
                let live = after.channels["/live"@];
                &&& live.name == c.name
                &&& live.active_publisher == c.active_publisher
                &&& live.buffer.last() == packet
                &&& c.buffer.len() < 32 ==> live.buffer == c.buffer.push(packet)
                &&& c.buffer.len() == 32 ==> live.buffer == c.buffer.skip(1).push(packet)
            }
        }),
{
    let after = r.published(packet);
    if r.channels.contains_key("/live"@) {
        let c = r.channels["/live"@];
        let live = after.channels["/live"@];
        if c.buffer.len() < 32 {
            assert(live.buffer =~= c.buffer.push(packet));
        } else if c.buffer.len() == 32 {
            assert(live.buffer =~= c.buffer.skip(1).push(packet));
        }
    }
}

/// The id of a connection is `conn-` and the number of the connection in decimal digits.
pub proof fn law_id_writes_number(n: nat)
    ensures
        connection_id(n).len() > 5,
        connection_id(n).take(5) == seq!['c', 'o', 'n', 'n', '-'],
        crate::segments::is_number(connection_id(n).skip(5)),
        crate::segments::value(connection_id(n).skip(5)) == n,
        n > 0 ==> connection_id(n)[5] != '0',
        n == 0 ==> connection_id(n).len() == 6,
{
    reveal_strlit("conn-");
    lemma_decimal(n);
    crate::text::law_decimal_digits(n);
    assert(connection_id(n).take(5) =~= seq!['c', 'o', 'n', 'n', '-']);
    assert(connection_id(n).skip(5) =~= decimal(n));
}

/// What an action of a feed says is what it holds.
pub proof fn law_feed_action_says_what_it_holds(action: FeedAction)
    ensures
        match action {
            FeedAction::Send(data) => action@ == FeedStep::Send(contents(data)),
            FeedAction::Receive => action@ == FeedStep::Receive,
            FeedAction::End => action@ == FeedStep::End,
        },
{
}

} // verus!

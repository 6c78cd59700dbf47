//! The publisher's side of the connection: where the media comes from, when to try
//! again, and what to send.

use vstd::prelude::*;
use vstd::string::StringExecFns;
use bytes::Bytes;
use crate::address::{
    is_publisher_address, publisher_address, publisher_address_has_room, publisher_url,
    try_publisher_url, Address, AddressText,
};
use crate::error::{ErrorText, VqdError};
use crate::packet::{contents, serialize_media_packet, WebTransportMediaPacket};
use crate::text::{decimal, push_decimal};

verus! {

/// After how many failed attempts the client gives up.
pub const CONNECTION_RETRY_MAX: u32 = 5;

/// How long the client waits before another attempt, in seconds.
pub const CONNECTION_RETRY_SECONDS: u64 = 5;

/// Where the publisher takes the presentation from.
#[derive(Debug)]
pub enum InputSource {
    Pipe,
    Directory(String),
}

/// What the file system says of the input directory.
#[derive(Debug)]
pub struct InputDirectory {
    pub path: String,
    pub exists: bool,
    pub is_dir: bool,
}

/// The source that the command line asks for. A pipe needs no directory. Without a pipe
/// there must be a directory, and it must be one.
pub fn choose_input(pipe: bool, input: Option<InputDirectory>) -> (r: Result<
    InputSource,
    VqdError,
>)
    ensures
        match (pipe, input) {
            (true, _) => r == Ok::<InputSource, VqdError>(InputSource::Pipe),
            (false, None) => r matches Err(e) && e.is_other(
                "Either --input or --pipe must be specified"@,
            ),
            (false, Some(dir)) => if dir.exists && dir.is_dir {
                r matches Ok(InputSource::Directory(path)) && path@ == dir.path@
            } else {
                r matches Err(e) && e.is_other(
                    "Input directory "@ + dir.path@
                        + " does not exist or is not a directory"@,
                )
            },
        },
{
    if pipe {
        return Ok(InputSource::Pipe);
    }
    match input {
        None => Err(
            VqdError::Other("Either --input or --pipe must be specified".to_owned()),
        ),
        Some(dir) => {
            if dir.exists && dir.is_dir {
                Ok(InputSource::Directory(dir.path))
            } else {
                let mut message: String = "Input directory ".to_owned();
                message.append(dir.path.as_str());
                message.append(" does not exist or is not a directory");
                Err(VqdError::Other(message))
            }
        },
    }
}

/// What the client is waiting for.
#[derive(Debug, Clone, Copy, PartialEq, Eq, Structural)]
pub enum ClientPhase {
    /// The first attempt, or the end of the wait before another one.
    Idle,
    /// A session with the server.
    Connecting,
    /// A packet of the reader.
    Receiving,
    /// The outcome of sending a packet.
    Sending,
    /// Nothing: the client has completed or given up.
    Ended,
}

/// What happens to the client.
#[derive(Debug)]
pub enum ClientEvent {
    /// It is time to connect.
    Due,
    /// The session is established.
    Connected,
    /// There is no session.
    ConnectFailed,
    /// The reader has a packet.
    Packet(WebTransportMediaPacket),
    /// The reader has no more packets, or the client was too slow for them.
    NoPacket,
    /// A stream was opened for the packet; writing to it may have failed.
    StreamOpened,
    /// No stream could be opened.
    StreamFailed,
}

/// What the client does next.
#[derive(Debug)]
pub enum ClientAction {
    /// Connect to this address.
    Connect(Address),
    /// Wait for the next packet of the reader.
    Receive,
    /// Open a stream and write this to it.
    Send(Bytes),
    /// Close the session; the client has completed.
    Close,
    /// Wait this many seconds.
    Wait(u64),
    /// Give up.
    Fail(VqdError),
}

/// What an action says.
pub enum ClientStep {
    Connect(AddressText),
    Receive,
    Send(Seq<u8>),
    Close,
    Wait(u64),
    Fail(ErrorText),
}

impl View for ClientAction {
    type V = ClientStep;

    open spec fn view(&self) -> ClientStep {
        match self {
            ClientAction::Connect(address) => ClientStep::Connect(address@),
            ClientAction::Receive => ClientStep::Receive,
            ClientAction::Send(data) => ClientStep::Send(contents(*data)),
            ClientAction::Close => ClientStep::Close,
            ClientAction::Wait(seconds) => ClientStep::Wait(*seconds),
            ClientAction::Fail(e) => ClientStep::Fail(e@),
        }
    }
}

/// What a client knows.
pub struct ClientState {
    pub server_url: Seq<char>,
    /// There is a session, and the reader may go on.
    pub connection_ready: bool,
    /// How many attempts have failed.
    pub retry_count: nat,
    pub phase: ClientPhase,
}

/// The error of a client that gives up.
pub open spec fn gave_up() -> ErrorText {
    ErrorText::Other(
        "Failed to connect after "@ + decimal(CONNECTION_RETRY_MAX as nat) + " attempts"@,
    )
}

impl ClientState {
    /// A client that has not tried to connect.
    pub open spec fn initial(server_url: Seq<char>) -> ClientState {
        ClientState {
            server_url,
            connection_ready: false,
            retry_count: 0,
            phase: ClientPhase::Idle,
        }
    }

    /// The failed attempts are counted up to the limit, which ends the client.
    pub open spec fn wf(self) -> bool {
        &&& self.retry_count <= CONNECTION_RETRY_MAX
        &&& self.retry_count == CONNECTION_RETRY_MAX ==> self.phase == ClientPhase::Ended
    }

    /// The event can happen in the client's phase.
    pub open spec fn expects(self, event: ClientEvent) -> bool {
        match event {
            ClientEvent::Due => self.phase == ClientPhase::Idle,
            ClientEvent::Connected | ClientEvent::ConnectFailed => self.phase
                == ClientPhase::Connecting,
            ClientEvent::Packet(_) | ClientEvent::NoPacket => self.phase == ClientPhase::Receiving,
            ClientEvent::StreamOpened | ClientEvent::StreamFailed => self.phase
                == ClientPhase::Sending,
        }
    }

    /// The event can happen, and where it is time to connect there is room for the
    /// address.
    pub open spec fn admits(self, event: ClientEvent) -> bool {
        self.expects(event) && (event is Due ==> publisher_address_has_room(self.server_url))
    }

    /// The attempt has failed: the client waits for another one, or gives up.
    pub open spec fn fail(self) -> (ClientState, ClientStep) {
        let failed = ClientState {
            connection_ready: false,
            retry_count: self.retry_count + 1,
            ..self
        };
        if failed.retry_count < CONNECTION_RETRY_MAX {
            (
                ClientState { phase: ClientPhase::Idle, ..failed },
                ClientStep::Wait(CONNECTION_RETRY_SECONDS),
            )
        } else {
            (
                ClientState { phase: ClientPhase::Ended, ..failed },
                ClientStep::Fail(gave_up()),
            )
        }
    }

    /// The client has completed.
    pub open spec fn close(self) -> (ClientState, ClientStep) {
        (ClientState { phase: ClientPhase::Ended, ..self }, ClientStep::Close)
    }

    /// The client after `event`, and what it does next.
    pub open spec fn step(self, event: ClientEvent) -> (ClientState, ClientStep) {
        match event {
            ClientEvent::Due => match publisher_address(self.server_url) {
                Ok(address) => (
                    ClientState { phase: ClientPhase::Connecting, connection_ready: false, ..self },
                    ClientStep::Connect(address),
                ),
                Err(_) => self.fail(),
            },
            ClientEvent::Connected => (
                ClientState { phase: ClientPhase::Receiving, connection_ready: true, ..self },
                ClientStep::Receive,
            ),
            ClientEvent::ConnectFailed => self.fail(),
            ClientEvent::Packet(packet) => if self.connection_ready {
                (
                    ClientState { phase: ClientPhase::Sending, ..self },
                    ClientStep::Send(packet@.wire()),
                )
            } else {
                self.close()
            },
            ClientEvent::StreamOpened => (
                ClientState { phase: ClientPhase::Receiving, ..self },
                ClientStep::Receive,
            ),
            ClientEvent::NoPacket | ClientEvent::StreamFailed => self.close(),
        }
    }

    /// The client after `events`.
    pub open spec fn after(self, events: Seq<ClientEvent>) -> ClientState
        decreases events.len(),
    {
        if events.len() == 0 {
            self
        } else {
            self.after(events.drop_last()).step(events.last()).0
        }
    }

    /// Each of `events` can happen after those before it.
    pub open spec fn admits_all(self, events: Seq<ClientEvent>) -> bool
        decreases events.len(),
    {
        events.len() > 0 ==> self.admits_all(events.drop_last()) && self.after(
            events.drop_last(),
        ).admits(events.last())
    }

    /// How many attempts the client has begun in the course of `events`.
    pub open spec fn attempts(self, events: Seq<ClientEvent>) -> nat
        decreases events.len(),
    {
        if events.len() == 0 {
            0
        } else {
            self.attempts(events.drop_last()) + if events.last() is Due {
                1nat
            } else {
                0
            }
        }
    }

    /// The addresses that the client connects to in the course of `events`.
    pub open spec fn connects(self, events: Seq<ClientEvent>) -> Seq<AddressText>
        decreases events.len(),
    {
        if events.len() == 0 {
            Seq::empty()
        } else {
            let before = self.connects(events.drop_last());
            match self.after(events.drop_last()).step(events.last()).1 {
                ClientStep::Connect(address) => before.push(address),
                _ => before,
            }
        }
    }
}

/// The client that publishes to a server.
#[derive(Debug)]
pub struct WebTransportClient {
    server_url: String,
    connection_ready: bool,
    retry_count: u32,
    phase: ClientPhase,
}

impl View for WebTransportClient {
    type V = ClientState;

    closed spec fn view(&self) -> ClientState {
        ClientState {
            server_url: self.server_url@,
            connection_ready: self.connection_ready,
            retry_count: self.retry_count as nat,
            phase: self.phase,
        }
    }
}

impl WebTransportClient {
    /// The parts of the client fit together.
    pub open spec fn wf(&self) -> bool {
        self@.wf()
    }

    /// A client that has not tried to connect.
    pub fn new(server_url: String) -> (r: Result<Self, VqdError>)
        ensures
            r matches Ok(client) && client.wf() && client@ == ClientState::initial(server_url@),
    {
        Ok(
            WebTransportClient {
                server_url,
                connection_ready: false,
                retry_count: 0,
                phase: ClientPhase::Idle,
            },
        )
    }

    /// The URL of the server.
    pub fn server_url(&self) -> (url: &str)
        ensures
            url@ == self@.server_url,
    {
        self.server_url.as_str()
    }

    /// Whether there is a session, and the reader may go on.
    pub fn connection_ready(&self) -> (ready: bool)
        ensures
            ready == self@.connection_ready,
    {
        self.connection_ready
    }

    /// How many attempts to connect have failed.
    pub fn retry_count(&self) -> (count: u32)
        ensures
            count == self@.retry_count,
    {
        self.retry_count
    }

    /// Ends an attempt that has failed.
    fn fail(&mut self) -> (action: ClientAction)
        requires
            old(self).wf(),
            old(self)@.phase != ClientPhase::Ended,
        ensures
            final(self).wf(),
            (final(self)@, action@) == old(self)@.fail(),
    {
        self.connection_ready = false;
        self.retry_count = self.retry_count + 1;
        if self.retry_count >= CONNECTION_RETRY_MAX {
            self.phase = ClientPhase::Ended;
            let mut message: String = "Failed to connect after ".to_owned();
            push_decimal(&mut message, self.retry_count as u64);
            message.append(" attempts");
            ClientAction::Fail(VqdError::Other(message))
        } else {
            self.phase = ClientPhase::Idle;
            ClientAction::Wait(CONNECTION_RETRY_SECONDS)
        }
    }

    /// Takes the client from one event to the next action. It connects to the address of
    /// the publisher.
    pub fn run(&mut self, event: ClientEvent) -> (action: ClientAction)
        requires
            old(self).wf(),
            old(self)@.admits(event),
        ensures
            final(self).wf(),
            (final(self)@, action@) == old(self)@.step(event),
            action matches ClientAction::Connect(address) ==> is_publisher_address(
                old(self)@.server_url,
                Ok(address),
            ),
    {
        match event {
            ClientEvent::Due => match publisher_url(self.server_url.as_str()) {
                Ok(address) => {
                    self.connection_ready = false;
                    self.phase = ClientPhase::Connecting;
                    ClientAction::Connect(address)
                },
                Err(_) => self.fail(),
            },
            ClientEvent::Connected => {
                self.connection_ready = true;
                self.phase = ClientPhase::Receiving;
                ClientAction::Receive
            },
            ClientEvent::ConnectFailed => self.fail(),
            ClientEvent::Packet(packet) => {
                if self.connection_ready {
                    self.phase = ClientPhase::Sending;
                    ClientAction::Send(serialize_media_packet(&packet))
                } else {
                    self.phase = ClientPhase::Ended;
                    ClientAction::Close
                }
            },
            ClientEvent::StreamOpened => {
                self.phase = ClientPhase::Receiving;
                ClientAction::Receive
            },
            ClientEvent::NoPacket | ClientEvent::StreamFailed => {
                self.phase = ClientPhase::Ended;
                ClientAction::Close
            },
        }
    }

    /// Takes the client from one event to the next action. Where it is time to connect and
    /// there is no room for the address, there is no action, and the client is as it was.
    pub fn try_run(&mut self, event: ClientEvent) -> (r: Option<ClientAction>)
        requires
            old(self).wf(),
            old(self)@.expects(event),
        ensures
            final(self).wf(),
            r is Some <==> old(self)@.admits(event),
            match r {
                Some(action) => (final(self)@, action@) == old(self)@.step(event) && (
                action matches ClientAction::Connect(address) ==> is_publisher_address(
                    old(self)@.server_url,
                    Ok(address),
                )),
                None => final(self)@ == old(self)@,
            },
    {
        if let ClientEvent::Due = event {
            if try_publisher_url(self.server_url.as_str()).is_none() {
                return None;
            }
        }
        Some(self.run(event))
    }
}

/// The client begins no more attempts than the limit: one for each that has failed, and
/// one more where an attempt is under way or has led to a session.
pub proof fn law_attempts_are_limited(server_url: Seq<char>, events: Seq<ClientEvent>)
    requires
        ClientState::initial(server_url).admits_all(events),
    ensures
        ({
            let s = ClientState::initial(server_url);
            let now = s.after(events);
            &&& now.wf()
            &&& s.attempts(events) <= CONNECTION_RETRY_MAX
            &&& s.attempts(events) == now.retry_count + if now.phase == ClientPhase::Idle
                || now.retry_count == CONNECTION_RETRY_MAX {
                0int
            } else {
                1
            }
        }),
    decreases events.len(),
{
    if events.len() > 0 {
        law_attempts_are_limited(server_url, events.drop_last());
    }
}

proof fn lemma_server_url(server_url: Seq<char>, events: Seq<ClientEvent>)
    ensures
        ClientState::initial(server_url).after(events).server_url == server_url,
    decreases events.len(),
{
    if events.len() > 0 {
        lemma_server_url(server_url, events.drop_last());
    }
}

/// Whenever the client connects, it connects to the address of the publisher, and at most
/// once in an attempt.
pub proof fn law_connects_to_publisher_address(server_url: Seq<char>, events: Seq<ClientEvent>)
    ensures
        ({
            let connects = ClientState::initial(server_url).connects(events);
            &&& connects.len() <= ClientState::initial(server_url).attempts(events)
            &&& forall|i: int|
                0 <= i < connects.len() ==> publisher_address(server_url) == Ok::<
                    AddressText,
                    Seq<char>,
                >(#[trigger] connects[i])
        }),
    decreases events.len(),
{
    if events.len() > 0 {
        law_connects_to_publisher_address(server_url, events.drop_last());
        lemma_server_url(server_url, events.drop_last());
    }
}

/// A server URL that is no URL makes every attempt fail: the client never connects.
pub proof fn law_bad_url_never_connects(server_url: Seq<char>, events: Seq<ClientEvent>)
    requires
        publisher_address(server_url) is Err,
    ensures
        ClientState::initial(server_url).connects(events).len() == 0,
{
    law_connects_to_publisher_address(server_url, events);
    let connects = ClientState::initial(server_url).connects(events);
    if connects.len() > 0 {
        assert(publisher_address(server_url) == Ok::<AddressText, Seq<char>>(connects[0]));
    }
}

/// While packets are received and sent there is a session, and the reader may go on.
pub proof fn law_ready_while_publishing(server_url: Seq<char>, events: Seq<ClientEvent>)
    requires
        ClientState::initial(server_url).admits_all(events),
    ensures
        ({
            let now = ClientState::initial(server_url).after(events);
            &&& now.phase == ClientPhase::Receiving || now.phase == ClientPhase::Sending
                ==> now.connection_ready
            &&& now.phase == ClientPhase::Idle || now.phase == ClientPhase::Connecting
                ==> !now.connection_ready
        }),
    decreases events.len(),
{
    if events.len() > 0 {
        law_ready_while_publishing(server_url, events.drop_last());
    }
}

impl ClientState {
    /// What is sent in the course of `events`.
    pub open spec fn sent(self, events: Seq<ClientEvent>) -> Seq<Seq<u8>>
        decreases events.len(),
    {
        if events.len() == 0 {
            Seq::empty()
        } else {
            let before = self.sent(events.drop_last());
            match self.after(events.drop_last()).step(events.last()).1 {
                ClientStep::Send(data) => before.push(data),
                _ => before,
            }
        }
    }
}

/// The wire forms of the packets that the reader had in the course of `events`.
pub open spec fn received_in(events: Seq<ClientEvent>) -> Seq<Seq<u8>>
    decreases events.len(),
{
    if events.len() == 0 {
        Seq::empty()
    } else {
        let before = received_in(events.drop_last());
        match events.last() {
            ClientEvent::Packet(packet) => before.push(packet@.wire()),
            _ => before,
        }
    }
}

/// A client with a session sends every packet that it is handed, whatever its numbers and
/// fields, in its wire form, and nothing else.
pub proof fn law_packet_is_sent(s: ClientState, packet: WebTransportMediaPacket)
    requires
        s.connection_ready,
    ensures
        s.step(ClientEvent::Packet(packet)).1 == ClientStep::Send(packet@.wire()),
        s.step(ClientEvent::Packet(packet)).0.connection_ready,
{
}

/// What the client sends is the wire forms of all packets that it receives, in order.
pub proof fn law_all_received_is_sent(server_url: Seq<char>, events: Seq<ClientEvent>)
    requires
        ClientState::initial(server_url).admits_all(events),
    ensures
        ClientState::initial(server_url).sent(events) == received_in(events),
    decreases events.len(),
{
    if events.len() > 0 {
        law_all_received_is_sent(server_url, events.drop_last());
        law_ready_while_publishing(server_url, events.drop_last());
    }
}

/// The client connects exactly when it is time to and the URL of the server is one, and
/// then to the address of the publisher.
pub proof fn law_connects_when_due(s: ClientState, event: ClientEvent)
    ensures
        s.step(event).1 is Connect <==> event is Due && publisher_address(s.server_url) is Ok,
        s.step(event).1 matches ClientStep::Connect(address) ==> publisher_address(s.server_url)
            == Ok::<AddressText, Seq<char>>(address),
        s.step(event).1 is Connect <==> s.step(event).0.phase == ClientPhase::Connecting,
{
}

/// The client waits for a packet exactly when a session is established or a packet is on
/// its stream.
pub proof fn law_receives_after_connecting_and_sending(s: ClientState, event: ClientEvent)
    ensures
        s.step(event).1 is Receive <==> event is Connected || event is StreamOpened,
        s.step(event).1 is Receive <==> s.step(event).0.phase == ClientPhase::Receiving,
        s.step(event).1 is Send <==> event is Packet && s.connection_ready,
        s.step(event).1 is Send <==> s.step(event).0.phase == ClientPhase::Sending,
{
}

/// The client closes the session exactly when there are no more packets, when no stream
/// can be opened, or when it is handed a packet without a session.
pub proof fn law_closes_at_the_end(s: ClientState, event: ClientEvent)
    ensures
        s.step(event).1 is Close <==> event is NoPacket || event is StreamFailed || (
        event is Packet && !s.connection_ready),
        s.step(event).1 is Close ==> s.step(event).0.phase == ClientPhase::Ended,
{
}

/// An attempt has failed: there is no session, or the URL of the server is none.
pub open spec fn is_failure(s: ClientState, event: ClientEvent) -> bool {
    event is ConnectFailed || (event is Due && publisher_address(s.server_url) is Err)
}

/// A failed attempt is counted, and nothing else is. After each of the first four the
/// client waits five seconds for another; after the fifth it gives up.
pub proof fn law_failures_are_counted(s: ClientState, event: ClientEvent)
    requires
        s.wf(),
        s.expects(event),
    ensures
        s.step(event).0.retry_count == s.retry_count + if is_failure(s, event) {
            1int
        } else {
            0
        },
        s.step(event).1 is Wait <==> is_failure(s, event) && s.retry_count < 4,
        s.step(event).1 is Fail <==> is_failure(s, event) && s.retry_count == 4,
        s.step(event).1 matches ClientStep::Wait(seconds) ==> seconds == 5
            && s.step(event).0.phase == ClientPhase::Idle,
        s.step(event).1 matches ClientStep::Fail(e) ==> e == ErrorText::Other(
            "Failed to connect after 5 attempts"@,
        ) && s.step(event).0.phase == ClientPhase::Ended,
{
    reveal_strlit("Failed to connect after 5 attempts");
    reveal_strlit("Failed to connect after ");
    reveal_strlit(" attempts");
    assert(decimal(5) =~= seq!['5']);
    assert("Failed to connect after "@ + decimal(5) + " attempts"@
        =~= "Failed to connect after 5 attempts"@);
}

/// There is a session from when it is established until an attempt begins or fails; the
/// URL of the server stays what it is.
pub proof fn law_session_lasts(s: ClientState, event: ClientEvent)
    ensures
        s.step(event).0.server_url == s.server_url,
        s.step(event).0.connection_ready == if event is Connected {
            true
        } else if event is Due || event is ConnectFailed {
            false
        } else {
            s.connection_ready
        },
{
}

/// Each event is expected in one phase: it is the outcome of the action that led there.
pub proof fn law_expected_events(s: ClientState, event: ClientEvent)
    ensures
        s.expects(event) <==> match s.phase {
            ClientPhase::Idle => event is Due,
            ClientPhase::Connecting => event is Connected || event is ConnectFailed,
            ClientPhase::Receiving => event is Packet || event is NoPacket,
            ClientPhase::Sending => event is StreamOpened || event is StreamFailed,
            ClientPhase::Ended => false,
        },
        ClientState::initial(s.server_url).expects(ClientEvent::Due),
        !ClientState::initial(s.server_url).connection_ready,
        ClientState::initial(s.server_url).retry_count == 0,
        ClientState::initial(s.server_url).server_url == s.server_url,
{
}

/// An event that is expected is admitted, unless it is time to connect and there is no room
/// for the address.
pub proof fn law_expected_is_admitted(s: ClientState, event: ClientEvent)
    requires
        s.expects(event),
    ensures
        !(event is Due) ==> s.admits(event),
        event is Due ==> (s.admits(event) <==> publisher_address_has_room(s.server_url)),
{
}

/// What an action says is what it holds.
pub proof fn law_action_says_what_it_holds(action: ClientAction)
    ensures
        match action {
            ClientAction::Connect(address) => action@ == ClientStep::Connect(address@),
            ClientAction::Receive => action@ == ClientStep::Receive,
            ClientAction::Send(data) => action@ == ClientStep::Send(contents(data)),
            ClientAction::Close => action@ == ClientStep::Close,
            ClientAction::Wait(seconds) => action@ == ClientStep::Wait(seconds),
            ClientAction::Fail(e) => action@ == ClientStep::Fail(e@),
        },
{
}

} // verus!

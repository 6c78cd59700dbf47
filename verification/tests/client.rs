use bytes::Bytes;
use vivoh_quic_dash::client::{
    choose_input, ClientAction, ClientEvent, InputDirectory, InputSource, CONNECTION_RETRY_MAX,
    CONNECTION_RETRY_SECONDS,
};
use vivoh_quic_dash::{
    serialize_media_packet, VqdError, WebTransportClient, WebTransportMediaPacket,
};

fn directory(exists: bool, is_dir: bool) -> Option<InputDirectory> {
    Some(InputDirectory { path: "/media/in".to_string(), exists, is_dir })
}

fn packet(id: u32) -> WebTransportMediaPacket {
    WebTransportMediaPacket {
        packet_id: id,
        timestamp: 30_000,
        duration: 30_000,
        mpd: Bytes::from_static(b"mpd"),
        audio_init: Bytes::from_static(b"ai"),
        video_init: Bytes::from_static(b"vi"),
        audio_data: Bytes::from_static(b"ad"),
        video_data: Bytes::from_static(b"vd"),
    }
}

fn client(url: &str) -> WebTransportClient {
    WebTransportClient::new(url.to_string()).unwrap()
}

fn step(client: &mut WebTransportClient, event: ClientEvent) -> ClientAction {
    client.try_run(event).unwrap()
}

#[test]
fn pipe_needs_no_directory() {
    assert!(matches!(choose_input(true, None), Ok(InputSource::Pipe)));
    assert!(matches!(choose_input(true, directory(false, false)), Ok(InputSource::Pipe)));
}

#[test]
fn directory_must_be_one() {
    match choose_input(false, directory(true, true)) {
        Ok(InputSource::Directory(path)) => assert_eq!(path, "/media/in"),
        other => panic!("{other:?}"),
    }
    for (exists, is_dir) in [(false, false), (true, false), (false, true)] {
        match choose_input(false, directory(exists, is_dir)) {
            Err(VqdError::Other(message)) => assert_eq!(
                message,
                "Input directory /media/in does not exist or is not a directory"
            ),
            other => panic!("{other:?}"),
        }
    }
    match choose_input(false, None) {
        Err(e) => assert_eq!(
            e.message(),
            "Other error: Either --input or --pipe must be specified"
        ),
        other => panic!("{other:?}"),
    }
}

#[test]
fn client_connects_to_the_address_of_the_publisher() {
    let mut c = client("https://example.com/live");
    assert_eq!(c.server_url(), "https://example.com/live");
    assert!(!c.connection_ready());
    match step(&mut c, ClientEvent::Due) {
        ClientAction::Connect(address) => {
            assert_eq!(address.href, "https://example.com/live/pub");
        }
        other => panic!("{other:?}"),
    }
    assert!(!c.connection_ready());
}

#[test]
fn client_sends_what_it_receives() {
    let mut c = client("https://example.com");
    step(&mut c, ClientEvent::Due);
    assert!(matches!(step(&mut c, ClientEvent::Connected), ClientAction::Receive));
    assert!(c.connection_ready());
    for id in 0..3 {
        match step(&mut c, ClientEvent::Packet(packet(id))) {
            ClientAction::Send(data) => assert_eq!(data, serialize_media_packet(&packet(id))),
            other => panic!("{other:?}"),
        }
        assert!(matches!(step(&mut c, ClientEvent::StreamOpened), ClientAction::Receive));
    }
    assert!(matches!(step(&mut c, ClientEvent::NoPacket), ClientAction::Close));
    assert!(c.connection_ready());
    assert_eq!(c.retry_count(), 0);
}

#[test]
fn client_closes_without_a_stream() {
    let mut c = client("https://example.com");
    step(&mut c, ClientEvent::Due);
    step(&mut c, ClientEvent::Connected);
    step(&mut c, ClientEvent::Packet(packet(0)));
    assert!(matches!(step(&mut c, ClientEvent::StreamFailed), ClientAction::Close));
}

#[test]
fn client_gives_up_after_the_limit() {
    let mut c = client("https://example.com");
    for attempt in 1..=CONNECTION_RETRY_MAX {
        assert!(matches!(step(&mut c, ClientEvent::Due), ClientAction::Connect(_)));
        let action = step(&mut c, ClientEvent::ConnectFailed);
        assert_eq!(c.retry_count(), attempt);
        assert!(!c.connection_ready());
        match action {
            ClientAction::Wait(seconds) => {
                assert!(attempt < CONNECTION_RETRY_MAX);
                assert_eq!(seconds, CONNECTION_RETRY_SECONDS);
            }
            ClientAction::Fail(VqdError::Other(message)) => {
                assert_eq!(attempt, 5);
                assert_eq!(message, "Failed to connect after 5 attempts");
            }
            other => panic!("{other:?}"),
        }
    }
}

#[test]
fn client_never_connects_to_a_bad_url() {
    let mut c = client("not a url");
    for attempt in 1..=4 {
        assert!(matches!(step(&mut c, ClientEvent::Due), ClientAction::Wait(5)));
        assert_eq!(c.retry_count(), attempt);
    }
    match c.run(ClientEvent::Due) {
        ClientAction::Fail(e) => {
            assert_eq!(e.message(), "Other error: Failed to connect after 5 attempts");
        }
        other => panic!("{other:?}"),
    }
}

#[test]
fn client_connects_after_failures() {
    let mut c = client("https://example.com");
    step(&mut c, ClientEvent::Due);
    assert!(matches!(step(&mut c, ClientEvent::ConnectFailed), ClientAction::Wait(5)));
    step(&mut c, ClientEvent::Due);
    assert!(matches!(step(&mut c, ClientEvent::Connected), ClientAction::Receive));
    assert!(c.connection_ready());
    assert_eq!(c.retry_count(), 1);
}

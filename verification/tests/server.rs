use bytes::Bytes;
use vivoh_quic_dash::channel::BUFFERED_PACKETS;
use vivoh_quic_dash::server::{
    connection_role, handle_packet, join, register, Acceptor, FeedAction, FeedEvent, PlayerFeed,
    CHANNEL_NAME, MAX_PACKET_BYTES,
};
use vivoh_quic_dash::{
    serialize_media_packet, ChannelInfo, ChannelManager, ConnectionRole, VqdError,
    WebTransportMediaPacket,
};

fn packet(id: u32) -> WebTransportMediaPacket {
    WebTransportMediaPacket {
        packet_id: id,
        timestamp: id as u64 * 30_000,
        duration: 30_000,
        mpd: Bytes::from_static(b"mpd"),
        audio_init: Bytes::from_static(b"ai"),
        video_init: Bytes::from_static(b"vi"),
        audio_data: Bytes::from_static(b"ad"),
        video_data: Bytes::from_static(b"vd"),
    }
}

fn wire(id: u32) -> Bytes {
    serialize_media_packet(&packet(id))
}

fn live() -> ChannelManager {
    let mut manager = ChannelManager::new();
    manager.open_channel(CHANNEL_NAME);
    manager
}

fn assert_sends(action: FeedAction, wanted: &Bytes) {
    match action {
        FeedAction::Send(data) => assert_eq!(&data, wanted),
        other => panic!("{other:?}"),
    }
}

fn feed_of(manager: &ChannelManager) -> PlayerFeed {
    match join(manager) {
        Some(feed) => feed,
        None => panic!("no channel"),
    }
}

#[test]
fn roles_of_paths() {
    assert_eq!(connection_role("/pub"), ConnectionRole::ActivePublisher);
    assert_eq!(connection_role("/live/pub"), ConnectionRole::ActivePublisher);
    assert_eq!(connection_role("/"), ConnectionRole::Player);
    assert_eq!(connection_role("/pub/"), ConnectionRole::Player);
    assert_eq!(connection_role("pub"), ConnectionRole::Player);
}

#[test]
fn connections_are_counted() {
    let mut acceptor = Acceptor::new();
    assert!(acceptor.can_accept());
    let first = acceptor.accept("/pub");
    assert_eq!(first.conn_id, "conn-0");
    assert_eq!(first.role, ConnectionRole::ActivePublisher);
    for n in 1..12 {
        let next = acceptor.accept("/watch");
        assert_eq!(next.conn_id, format!("conn-{n}"));
        assert_eq!(next.role, ConnectionRole::Player);
    }
}

#[test]
fn names_of_the_channel() {
    assert_eq!(CHANNEL_NAME, "/live");
    assert_eq!(MAX_PACKET_BYTES, 2_000_000);
    assert_eq!(BUFFERED_PACKETS, 32);
}

#[test]
fn packet_is_passed_on_as_it_came() {
    let mut manager = live();
    match handle_packet(&mut manager, &wire(3)) {
        Ok(Some(sent)) => assert_eq!(sent, wire(3)),
        other => panic!("{other:?}"),
    }
    assert_eq!(manager.backlog(CHANNEL_NAME), Some(vec![wire(3)]));
}

#[test]
fn malformed_packet_changes_nothing() {
    let mut manager = live();
    handle_packet(&mut manager, &wire(1)).unwrap();
    match handle_packet(&mut manager, &wire(2)[1..]) {
        Err(VqdError::Other(message)) => assert_eq!(message, "Malformed media packet"),
        other => panic!("{other:?}"),
    }
    assert_eq!(manager.backlog(CHANNEL_NAME), Some(vec![wire(1)]));
}

#[test]
fn packet_is_lost_without_a_channel() {
    let mut manager = ChannelManager::new();
    assert!(matches!(handle_packet(&mut manager, &wire(0)), Ok(None)));
    assert_eq!(manager.backlog(CHANNEL_NAME), None);
    assert!(join(&manager).is_none());
    assert!(!manager.publish("/other", packet(0)));
}

#[test]
fn channel_keeps_the_last_packets() {
    let mut manager = live();
    for id in 0..40 {
        handle_packet(&mut manager, &wire(id)).unwrap();
    }
    let kept: Vec<Bytes> = (8..40).map(wire).collect();
    assert_eq!(manager.backlog(CHANNEL_NAME), Some(kept));
    let mut channel = ChannelInfo::new("/live".to_string());
    for id in 0..33 {
        channel.publish(packet(id));
    }
    assert_eq!(channel.backlog().len(), 32);
    assert_eq!(channel.backlog()[0], wire(1));
    channel.set_active_publisher("conn-0".to_string());
    assert_eq!(channel.backlog().len(), 32);
}

#[test]
fn opening_a_channel_again_keeps_it() {
    let mut manager = live();
    handle_packet(&mut manager, &wire(1)).unwrap();
    manager.open_channel(CHANNEL_NAME);
    assert_eq!(manager.backlog(CHANNEL_NAME), Some(vec![wire(1)]));
}

#[test]
fn registering_opens_the_channel() {
    let mut manager = ChannelManager::new();
    register(&mut manager, "conn-0", ConnectionRole::Player);
    assert_eq!(manager.backlog(CHANNEL_NAME), Some(vec![]));
    register(&mut manager, "conn-1", ConnectionRole::ActivePublisher);
    let shown = format!("{manager:?}");
    assert!(shown.contains("active_publisher: Some(\"conn-1\")"), "{shown}");
    assert!(shown.contains("(\"conn-0\", Player)"), "{shown}");
    assert!(shown.contains("(\"conn-1\", ActivePublisher)"), "{shown}");
}

#[test]
fn removed_connection_is_gone() {
    let mut manager = live();
    register(&mut manager, "conn-1", ConnectionRole::ActivePublisher);
    register(&mut manager, "conn-2", ConnectionRole::Player);
    handle_packet(&mut manager, &wire(1)).unwrap();
    manager.remove_connection("conn-2");
    let shown = format!("{manager:?}");
    assert!(shown.contains("active_publisher: Some(\"conn-1\")"), "{shown}");
    assert!(!shown.contains("conn-2"), "{shown}");
    manager.remove_connection("conn-1");
    let shown = format!("{manager:?}");
    assert!(!shown.contains("conn-1"), "{shown}");
    assert_eq!(manager.backlog(CHANNEL_NAME), Some(vec![wire(1)]));
    manager.remove_connection("conn-1");
}

#[test]
fn later_publisher_takes_over() {
    let mut manager = live();
    register(&mut manager, "conn-1", ConnectionRole::ActivePublisher);
    register(&mut manager, "conn-2", ConnectionRole::ActivePublisher);
    manager.remove_connection("conn-1");
    let shown = format!("{manager:?}");
    assert!(shown.contains("active_publisher: Some(\"conn-2\")"), "{shown}");
}

#[test]
fn player_is_sent_the_backlog_and_then_what_is_published() {
    let mut manager = live();
    for id in 0..2 {
        handle_packet(&mut manager, &wire(id)).unwrap();
    }
    let mut feed = feed_of(&manager);
    assert_sends(feed.next(FeedEvent::Begin), &wire(0));
    assert_sends(feed.next(FeedEvent::Sent), &wire(1));
    assert!(matches!(feed.next(FeedEvent::Sent), FeedAction::Receive));
    for id in 2..5 {
        let sent = handle_packet(&mut manager, &wire(id)).unwrap().unwrap();
        assert_sends(feed.next(FeedEvent::Published(sent)), &wire(id));
        assert!(matches!(feed.next(FeedEvent::Sent), FeedAction::Receive));
    }
    assert!(matches!(feed.next(FeedEvent::Closed), FeedAction::End));
}

#[test]
fn feed_ends_when_sending_fails() {
    let mut manager = live();
    handle_packet(&mut manager, &wire(0)).unwrap();
    let mut feed = feed_of(&manager);
    feed.next(FeedEvent::Begin);
    assert!(matches!(feed.next(FeedEvent::SendFailed), FeedAction::End));
    let mut feed = feed_of(&live());
    assert!(matches!(feed.next(FeedEvent::Begin), FeedAction::Receive));
    feed.next(FeedEvent::Published(wire(7)));
    assert!(matches!(feed.next(FeedEvent::SendFailed), FeedAction::End));
}

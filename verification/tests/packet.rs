use bytes::Bytes;
use vivoh_quic_dash::packet::{read_big_endian, MALFORMED};
use vivoh_quic_dash::{serialize_media_packet, VqdError, WebTransportMediaPacket};

fn sample() -> WebTransportMediaPacket {
    WebTransportMediaPacket {
        packet_id: 0x0102_0304,
        timestamp: 0x1112_1314_1516_1718,
        duration: 30_000,
        mpd: Bytes::from_static(b"<MPD/>"),
        audio_init: Bytes::from_static(b"ai"),
        video_init: Bytes::new(),
        audio_data: Bytes::from_static(b"audio"),
        video_data: Bytes::from_static(b"v"),
    }
}

fn assert_same(a: &WebTransportMediaPacket, b: &WebTransportMediaPacket) {
    assert_eq!(a.packet_id, b.packet_id);
    assert_eq!(a.timestamp, b.timestamp);
    assert_eq!(a.duration, b.duration);
    assert_eq!(a.mpd, b.mpd);
    assert_eq!(a.audio_init, b.audio_init);
    assert_eq!(a.video_init, b.video_init);
    assert_eq!(a.audio_data, b.audio_data);
    assert_eq!(a.video_data, b.video_data);
}

fn assert_malformed(data: &[u8]) {
    match WebTransportMediaPacket::parse(data) {
        Err(VqdError::Other(message)) => assert_eq!(message, MALFORMED),
        other => panic!("{other:?}"),
    }
}

#[test]
fn wire_form_of_a_packet() {
    let mut wanted: Vec<u8> = vec![1, 2, 3, 4, 0x11, 0x12, 0x13, 0x14, 0x15, 0x16, 0x17, 0x18];
    wanted.extend_from_slice(&[0, 0, 0x75, 0x30]);
    wanted.extend_from_slice(&[0, 0, 0, 0, 0, 0, 0, 6]);
    wanted.extend_from_slice(b"<MPD/>");
    wanted.extend_from_slice(&[0, 0, 0, 0, 0, 0, 0, 2]);
    wanted.extend_from_slice(b"ai");
    wanted.extend_from_slice(&[0, 0, 0, 0, 0, 0, 0, 0]);
    wanted.extend_from_slice(&[0, 0, 0, 0, 0, 0, 0, 5]);
    wanted.extend_from_slice(b"audio");
    wanted.extend_from_slice(&[0, 0, 0, 0, 0, 0, 0, 1]);
    wanted.extend_from_slice(b"v");
    assert_eq!(serialize_media_packet(&sample()), wanted);
}

#[test]
fn parsed_packet_is_the_one_that_was_serialized() {
    let packet = sample();
    let data = serialize_media_packet(&packet);
    let parsed = WebTransportMediaPacket::parse(&data).unwrap();
    assert_same(&parsed, &packet);
    assert_eq!(serialize_media_packet(&parsed), data);
}

#[test]
fn large_fields_survive() {
    let mut packet = sample();
    packet.packet_id = u32::MAX;
    packet.timestamp = u64::MAX;
    packet.duration = u32::MAX;
    packet.video_data = Bytes::from(vec![0xabu8; 70_000]);
    let data = serialize_media_packet(&packet);
    assert_same(&WebTransportMediaPacket::parse(&data).unwrap(), &packet);
}

#[test]
fn clone_is_the_same_packet() {
    let packet = sample();
    assert_same(&packet.clone(), &packet);
}

#[test]
fn bytes_that_are_no_packet_are_refused() {
    let data = serialize_media_packet(&sample()).to_vec();
    for n in 0..data.len() {
        assert_malformed(&data[..n]);
    }
    let mut longer = data.clone();
    longer.push(0);
    assert_malformed(&longer);
    let mut huge = data.clone();
    huge[16] = 0xff;
    assert_malformed(&huge);
}

#[test]
fn different_packets_differ_on_the_wire() {
    let a = sample();
    let mut b = sample();
    b.audio_init = Bytes::from_static(b"a");
    b.video_init = Bytes::from_static(b"i");
    assert_ne!(serialize_media_packet(&a), serialize_media_packet(&b));
}

#[test]
fn numbers_are_big_endian() {
    let data = [9u8, 0, 0, 1, 2, 255, 255, 255, 255];
    assert_eq!(read_big_endian(&data, 1, 4), 0x0102);
    assert_eq!(read_big_endian(&data, 1, 0), 0);
    assert_eq!(read_big_endian(&data, 1, 8), u64::from_be_bytes([0, 0, 1, 2, 255, 255, 255, 255]));
}

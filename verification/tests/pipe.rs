use vivoh_quic_dash::error::IoFailure;
use vivoh_quic_dash::pipe::{PipeAction, PipeEvent, PipeInput, PipeReader};
use vivoh_quic_dash::{VqdError, WebTransportMediaPacket};

fn failure(unexpected_eof: bool) -> PipeEvent {
    PipeEvent::ReadFailed(IoFailure { message: "read failed".to_string(), unexpected_eof })
}

fn head(size: u32, kind: &[u8]) -> Vec<u8> {
    let mut head = size.to_be_bytes().to_vec();
    head.extend_from_slice(kind);
    head
}

fn line(r: &mut PipeReader, text: &str) -> PipeAction {
    r.next(PipeEvent::Line(text.as_bytes().to_vec()))
}

/// Hands the reader a box, and gives back what it does then.
fn give_box(r: &mut PipeReader, kind: &[u8], body: &[u8]) -> PipeAction {
    let h = head(body.len() as u32 + 8, kind);
    assert!(r.can_read_box(&h));
    match r.next(PipeEvent::Header(h)) {
        PipeAction::ReadBody(n) => assert_eq!(n, body.len()),
        other => panic!("{other:?}"),
    }
    r.next(PipeEvent::Body(body.to_vec()))
}

fn after_manifest() -> PipeReader {
    let mut r = PipeReader::new();
    assert!(matches!(r.next(PipeEvent::Begin), PipeAction::ReadLine));
    assert!(matches!(line(&mut r, "noise </MPD>\n"), PipeAction::ReadLine));
    assert!(matches!(line(&mut r, "<?xml?>\n"), PipeAction::ReadLine));
    assert!(matches!(line(&mut r, "  <MPD a='1'>\n"), PipeAction::ReadLine));
    assert!(matches!(line(&mut r, "<Period/> <MPD\n"), PipeAction::ReadLine));
    assert!(matches!(line(&mut r, " x</MPD>\n"), PipeAction::ReadHeader));
    r
}

fn after_inits() -> PipeReader {
    let mut r = after_manifest();
    assert!(matches!(give_box(&mut r, b"moov", b"audio"), PipeAction::ReadHeader));
    assert!(matches!(give_box(&mut r, b"moov", b""), PipeAction::CountReceivers));
    r
}

fn give_pair(r: &mut PipeReader, audio: &[u8], video: &[u8]) -> WebTransportMediaPacket {
    assert!(matches!(r.next(PipeEvent::Receivers(2)), PipeAction::ReadHeader));
    assert!(matches!(give_box(r, b"moof", audio), PipeAction::ReadHeader));
    match give_box(r, b"moof", video) {
        PipeAction::Send(packet) => packet,
        other => panic!("{other:?}"),
    }
}

fn assert_waits(action: PipeAction, millis: u64) {
    match action {
        PipeAction::Wait(n) => assert_eq!(n, millis),
        other => panic!("{other:?}"),
    }
}

#[test]
fn pairs_of_boxes_become_packets() {
    let mut r = after_inits();
    let packet = give_pair(&mut r, b"one", b"two!");
    assert_eq!(packet.packet_id, 0);
    assert_eq!((packet.timestamp, packet.duration), (0, 30_000));
    assert_eq!(packet.mpd, "  <MPD a='1'>\n<Period/> <MPD\n x</MPD>\n");
    assert_eq!(packet.audio_init.as_ref(), b"\0\0\0\x0dmoovaudio");
    assert_eq!(packet.video_init.as_ref(), b"\0\0\0\x08moov");
    assert_eq!(packet.audio_data.as_ref(), b"\0\0\0\x0bmoofone");
    assert_eq!(packet.video_data.as_ref(), b"\0\0\0\x0cmooftwo!");
    assert!(matches!(r.next(PipeEvent::Sent), PipeAction::CountReceivers));
    for id in 1..4u32 {
        assert_eq!(r.packet_id(), id);
        let packet = give_pair(&mut r, b"a", b"v");
        assert_eq!(packet.packet_id, id);
        assert_eq!(packet.timestamp, id as u64 * 30_000);
        assert_eq!(packet.duration, 30_000);
        r.next(PipeEvent::Sent);
    }
}

#[test]
fn manifest_on_one_line_is_not_ended() {
    let mut r = PipeReader::new();
    r.next(PipeEvent::Begin);
    assert!(matches!(line(&mut r, "<MPD></MPD>\n"), PipeAction::ReadLine));
    assert!(matches!(line(&mut r, "</MPD>"), PipeAction::ReadHeader));
}

#[test]
fn input_without_a_manifest_is_an_error() {
    for lines in [vec![], vec!["a\n"], vec!["<MPD>\n", "b\n"]] {
        let mut r = PipeReader::new();
        r.next(PipeEvent::Begin);
        for text in lines {
            assert!(matches!(line(&mut r, text), PipeAction::ReadLine));
        }
        match line(&mut r, "") {
            PipeAction::End(Err(VqdError::Other(message))) => {
                assert_eq!(message, "End of input before finding MPD");
            }
            other => panic!("{other:?}"),
        }
    }
}

#[test]
fn wrong_initialization_segment_is_an_error() {
    let mut r = after_manifest();
    let h = head(3, b"moof");
    assert!(r.can_read_box(&h));
    match r.next(PipeEvent::Header(h)) {
        PipeAction::End(Err(VqdError::Other(message))) => {
            assert_eq!(
                message,
                format!("Expected box type {:?}, got {:?}", b"moov", b"moof")
            );
            assert_eq!(
                message,
                "Expected box type [109, 111, 111, 118], got [109, 111, 111, 102]"
            );
        }
        other => panic!("{other:?}"),
    }
}

#[test]
fn wrong_segment_makes_the_reader_wait() {
    let mut r = after_inits();
    r.next(PipeEvent::Receivers(1));
    assert_waits(r.next(PipeEvent::Header(head(100, b"mdat"))), 100);
    assert!(matches!(r.next(PipeEvent::Waited), PipeAction::CountReceivers));
    r.next(PipeEvent::Receivers(1));
    give_box(&mut r, b"moof", b"audio");
    assert_waits(r.next(PipeEvent::Header(head(100, b"moov"))), 100);
    r.next(PipeEvent::Waited);
    let packet = give_pair(&mut r, b"x", b"y");
    assert_eq!(packet.packet_id, 0);
    assert_eq!(packet.audio_data.as_ref(), b"\0\0\0\x09moofx");
}

#[test]
fn reader_waits_for_receivers() {
    let mut r = after_inits();
    assert_waits(r.next(PipeEvent::Receivers(0)), 1000);
    assert!(matches!(r.next(PipeEvent::Waited), PipeAction::CountReceivers));
    assert!(matches!(r.next(PipeEvent::Receivers(1)), PipeAction::ReadHeader));
}

#[test]
fn failure_before_the_first_segment_ends_the_reader() {
    let mut line_reader = PipeReader::new();
    line_reader.next(PipeEvent::Begin);
    let mut body_reader = after_manifest();
    body_reader.next(PipeEvent::Header(head(20, b"moov")));
    for r in [line_reader, after_manifest(), body_reader] {
        let mut r = r;
        match r.next(failure(true)) {
            PipeAction::End(Err(VqdError::Io(f))) => {
                assert_eq!(f.message, "read failed");
                assert!(f.unexpected_eof);
            }
            other => panic!("{other:?}"),
        }
    }
}

#[test]
fn end_of_input_between_segments_is_in_order() {
    let mut r = after_inits();
    r.next(PipeEvent::Receivers(1));
    assert!(matches!(r.next(failure(true)), PipeAction::End(Ok(()))));
    let mut r = after_inits();
    r.next(PipeEvent::Receivers(1));
    give_box(&mut r, b"moof", b"audio");
    r.next(PipeEvent::Header(head(20, b"moof")));
    assert!(matches!(r.next(failure(true)), PipeAction::End(Ok(()))));
}

#[test]
fn other_failures_in_a_segment_make_the_reader_wait() {
    let mut r = after_inits();
    r.next(PipeEvent::Receivers(1));
    assert_waits(r.next(failure(false)), 100);
    r.next(PipeEvent::Waited);
    assert_eq!(give_pair(&mut r, b"a", b"b").packet_id, 0);
}

#[test]
fn small_boxes_cannot_be_read() {
    let r = after_manifest();
    assert!(!r.can_read_box(&head(0, b"moov")));
    assert!(!r.can_read_box(&head(7, b"moov")));
    assert!(r.can_read_box(&head(8, b"moov")));
    assert!(r.can_read_box(&head(u32::MAX, b"moov")));
    assert!(r.can_read_box(&head(7, b"moof")));
}

/// Hands the reader a box from the front of the input, as it asks for it.
fn read_box(r: &mut PipeReader, input: &mut &[u8]) -> PipeAction {
    let (header, rest) = input.split_at(8);
    let size = match r.next(PipeEvent::Header(header.to_vec())) {
        PipeAction::ReadBody(n) => n,
        other => panic!("{other:?}"),
    };
    let (body, rest) = rest.split_at(size);
    *input = rest;
    r.next(PipeEvent::Body(body.to_vec()))
}

#[test]
fn boxes_are_read_one_by_one() {
    let boxed = |kind: &[u8], body: &[u8]| {
        let mut whole = head(body.len() as u32 + 8, kind);
        whole.extend_from_slice(body);
        whole
    };
    let audio_init = boxed(b"moov", b"first");
    let video_init = boxed(b"moov", &[7; 300]);
    let pairs = [
        (boxed(b"moof", b"a"), boxed(b"moof", b"")),
        (boxed(b"moof", b""), boxed(b"moof", b"moof")),
        (boxed(b"moof", &[1; 70_000]), boxed(b"moof", b"end")),
    ];
    let mut bytes = [audio_init.clone(), video_init.clone()].concat();
    for (audio, video) in &pairs {
        bytes.extend_from_slice(audio);
        bytes.extend_from_slice(video);
    }
    bytes.extend_from_slice(b"rest");
    let mut input: &[u8] = &bytes;
    let mut r = after_manifest();
    assert!(matches!(read_box(&mut r, &mut input), PipeAction::ReadHeader));
    assert!(matches!(read_box(&mut r, &mut input), PipeAction::CountReceivers));
    for (id, (audio, video)) in pairs.iter().enumerate() {
        assert!(matches!(r.next(PipeEvent::Receivers(1)), PipeAction::ReadHeader));
        assert!(matches!(read_box(&mut r, &mut input), PipeAction::ReadHeader));
        let packet = match read_box(&mut r, &mut input) {
            PipeAction::Send(packet) => packet,
            other => panic!("{other:?}"),
        };
        assert_eq!(packet.packet_id, id as u32);
        assert_eq!(packet.audio_init, audio_init);
        assert_eq!(packet.video_init, video_init);
        assert_eq!(&packet.audio_data, audio);
        assert_eq!(&packet.video_data, video);
        assert!(matches!(r.next(PipeEvent::Sent), PipeAction::CountReceivers));
    }
    assert_eq!(input, b"rest");
}

#[test]
fn boxes_of_any_type_come_back_whole() {
    let r = PipeReader::new();
    let mut bytes = head(11, b"ftyp");
    bytes.extend_from_slice(b"abc");
    bytes.extend_from_slice(&head(8, b"moov"));
    bytes.extend_from_slice(b"rest");
    let mut input = PipeInput::new(bytes);
    assert_eq!(input.len(), 23);
    assert_eq!(r.read_mp4_box(&mut input, b"ftyp").unwrap().as_ref(), b"\0\0\0\x0bftypabc");
    assert_eq!(r.read_mp4_box(&mut input, b"moov").unwrap().as_ref(), b"\0\0\0\x08moov");
    assert_eq!(input.len(), 4);
    assert_eq!(input.read_exact(4).unwrap(), b"rest");
}

#[test]
fn box_of_another_type_is_an_error() {
    let r = PipeReader::new();
    let mut bytes = head(9, b"moof");
    bytes.push(5);
    let mut input = PipeInput::new(bytes.clone());
    match r.read_mp4_box(&mut input, b"moov") {
        Err(VqdError::Other(message)) => assert_eq!(
            message,
            format!("Expected box type {:?}, got {:?}", b"moov", b"moof")
        ),
        other => panic!("{other:?}"),
    }
    assert_eq!(input.len(), 1);
    let mut input = PipeInput::new(bytes);
    match r.read_mp4_box(&mut input, b"moo") {
        Err(e) => assert_eq!(
            e.message(),
            "Other error: Expected box type [109, 111, 111], got [109, 111, 111, 102]"
        ),
        other => panic!("{other:?}"),
    }
}

#[test]
fn box_that_is_cut_off_is_an_error() {
    let r = PipeReader::new();
    let mut bytes = head(12, b"moof");
    bytes.extend_from_slice(b"data");
    for n in 0..bytes.len() {
        let mut input = PipeInput::new(bytes[..n].to_vec());
        match r.read_mp4_box(&mut input, b"moof") {
            Err(VqdError::Io(f)) => {
                assert_eq!(f.message, "early eof");
                assert!(f.unexpected_eof);
            }
            other => panic!("{other:?}"),
        }
        assert_eq!(input.len(), 0);
    }
    let mut input = PipeInput::new(bytes.clone());
    assert_eq!(r.read_mp4_box(&mut input, b"moof").unwrap(), bytes);
}

#[test]
fn packets_share_what_comes_before_the_segments() {
    let mut r = after_inits();
    let first = give_pair(&mut r, b"a", b"b");
    r.next(PipeEvent::Sent);
    r.next(PipeEvent::Receivers(1));
    r.next(PipeEvent::Header(head(100, b"mdat")));
    r.next(PipeEvent::Waited);
    let second = give_pair(&mut r, b"c", b"d");
    assert_eq!(first.mpd, second.mpd);
    assert_eq!(first.audio_init, second.audio_init);
    assert_eq!(first.video_init, second.video_init);
    assert_eq!(first.duration, second.duration);
}

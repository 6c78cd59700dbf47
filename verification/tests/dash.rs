use bytes::Bytes;
use vivoh_quic_dash::dash::{DashAction, DashEvent, DashReader};
use vivoh_quic_dash::mpd::{
    AdaptationSet, Mpd, Period, Representation, SegmentEntry, SegmentTemplate, SegmentTimeline,
};
use vivoh_quic_dash::WebTransportMediaPacket;

fn representation(id: u32, start: u64, duration: u32, count: i32) -> Representation {
    Representation {
        id,
        segment_template: SegmentTemplate {
            start_number: None,
            timescale: 30_000,
            timeline: SegmentTimeline {
                segments: vec![SegmentEntry {
                    start_time: Some(start),
                    duration,
                    repeat: Some(count - 1),
                }],
            },
        },
    }
}

fn manifest(count: i32) -> Mpd {
    Mpd {
        period: Period {
            adaptation_sets: vec![
                AdaptationSet { representations: vec![representation(0, 600, 30_000, count)] },
                AdaptationSet { representations: vec![representation(1, 700, 44_100, count)] },
            ],
        },
    }
}

fn listing(numbers: &[u32]) -> DashEvent {
    let mut names = vec!["stream.mpd".to_string()];
    for n in numbers {
        names.push(format!("chunk-0-{n:05}.m4s"));
        names.push(format!("chunk-1-{n:05}.m4s"));
    }
    DashEvent::Listed(Some(names))
}

fn data(text: &'static str) -> DashEvent {
    DashEvent::FileRead(Some(Bytes::from_static(text.as_bytes())))
}

fn assert_waits(action: DashAction) {
    match action {
        DashAction::Wait(seconds) => assert_eq!(seconds, 1),
        other => panic!("{other:?}"),
    }
}

fn assert_reads(action: DashAction, name: &str) {
    match action {
        DashAction::ReadFile(file) => assert_eq!(file, name),
        other => panic!("{other:?}"),
    }
}

/// Takes the reader to the listing for which it looks for new segments.
fn to_first_listing(r: &mut DashReader, loaded: bool) {
    assert!(matches!(r.next(DashEvent::PassDue), DashAction::CountReceivers));
    match r.next(DashEvent::Receivers(1)) {
        DashAction::FindFiles(a, b) => {
            assert_eq!((a.as_str(), b.as_str()), ("init-1.mp4", "init-0.mp4"));
        }
        other => panic!("{other:?}"),
    }
    let found = if loaded {
        r.next(DashEvent::FilesFound(true, true))
    } else {
        assert_reads(r.next(DashEvent::FilesFound(true, true)), "init-1.mp4");
        assert_reads(r.next(data("audio init")), "init-0.mp4");
        r.next(data("video init"))
    };
    match found {
        DashAction::FindFile(name) => assert_eq!(name, "stream.mpd"),
        other => panic!("{other:?}"),
    }
    assert!(matches!(r.next(DashEvent::FileFound(true)), DashAction::ListFiles));
}

/// Takes the reader on to the first action for the segments of the second listing.
fn to_segments(r: &mut DashReader, mpd: DashEvent, numbers: &[u32]) -> DashAction {
    assert!(matches!(r.next(listing(numbers)), DashAction::FindFiles(_, _)));
    assert_reads(r.next(DashEvent::FilesFound(true, true)), "stream.mpd");
    assert!(matches!(r.next(mpd), DashAction::ListFiles));
    r.next(listing(numbers))
}

fn send(r: &mut DashReader, parsed: Option<Mpd>) -> WebTransportMediaPacket {
    assert!(matches!(r.next(data("audio")), DashAction::ReadFile(_)));
    match r.next(data("video")) {
        DashAction::ParseMpd(text) => assert_eq!(text, "<MPD/>"),
        other => panic!("{other:?}"),
    }
    assert!(r.can_time(parsed.as_ref()));
    let timed = r.timings(parsed.as_ref());
    match r.next(DashEvent::MpdParsed(parsed)) {
        DashAction::Send(packet) => {
            let (start, duration) = timed.map_or((0, 0), |(video, _)| video);
            assert_eq!((packet.timestamp, packet.duration), (start, duration));
            packet
        }
        other => panic!("{other:?}"),
    }
}

#[test]
fn pass_sends_each_new_segment() {
    let mut r = DashReader::new();
    to_first_listing(&mut r, false);
    let action = to_segments(&mut r, data("<MPD/>"), &[2, 1]);
    assert_reads(action, "chunk-1-00001.m4s");
    assert_reads(r.next(data("audio one")), "chunk-0-00001.m4s");
    assert!(matches!(r.next(data("video one")), DashAction::ParseMpd(_)));
    let packet = match r.next(DashEvent::MpdParsed(Some(manifest(5)))) {
        DashAction::Send(packet) => packet,
        other => panic!("{other:?}"),
    };
    assert_eq!(packet.packet_id, 0);
    assert_eq!((packet.timestamp, packet.duration), (600, 30_000));
    assert_eq!(packet.mpd, "<MPD/>");
    assert_eq!(packet.audio_init, "audio init");
    assert_eq!(packet.video_init, "video init");
    assert_eq!(packet.audio_data, "audio one");
    assert_eq!(packet.video_data, "video one");
    assert_reads(r.next(DashEvent::Sent), "chunk-1-00002.m4s");
    let packet = send(&mut r, Some(manifest(5)));
    assert_eq!(packet.packet_id, 1);
    assert_eq!(r.packet_id(), 1);
    assert_waits(r.next(DashEvent::Sent));
    assert_eq!(r.packet_id(), 2);
}

#[test]
fn untimed_segment_has_no_time() {
    let mut r = DashReader::new();
    to_first_listing(&mut r, false);
    assert_reads(to_segments(&mut r, data("<MPD/>"), &[7, 8]), "chunk-1-00007.m4s");
    let packet = send(&mut r, Some(manifest(5)));
    assert_eq!((packet.timestamp, packet.duration), (0, 0));
    assert_reads(r.next(DashEvent::Sent), "chunk-1-00008.m4s");
    let packet = send(&mut r, None);
    assert_eq!((packet.timestamp, packet.duration), (0, 0));
    assert_eq!(packet.packet_id, 1);
}

#[test]
fn taken_segments_are_not_taken_again() {
    let mut r = DashReader::new();
    to_first_listing(&mut r, false);
    to_segments(&mut r, data("<MPD/>"), &[1]);
    send(&mut r, None);
    assert_waits(r.next(DashEvent::Sent));
    to_first_listing(&mut r, true);
    assert_waits(r.next(listing(&[1])));
    to_first_listing(&mut r, true);
    assert_reads(to_segments(&mut r, data("<MPD/>"), &[1, 2]), "chunk-1-00002.m4s");
}

#[test]
fn segments_are_forgotten_after_ten_others() {
    let mut r = DashReader::new();
    to_first_listing(&mut r, false);
    let numbers: Vec<u32> = (1..=11).collect();
    let mut action = to_segments(&mut r, data("<MPD/>"), &numbers);
    for n in numbers {
        assert_reads(action, &format!("chunk-1-{n:05}.m4s"));
        send(&mut r, None);
        action = r.next(DashEvent::Sent);
    }
    assert_waits(action);
    to_first_listing(&mut r, true);
    assert_waits(r.next(listing(&[2, 11])));
    to_first_listing(&mut r, true);
    assert_reads(to_segments(&mut r, data("<MPD/>"), &[1, 2]), "chunk-1-00001.m4s");
}

#[test]
fn unreadable_segment_is_passed_over() {
    let mut r = DashReader::new();
    to_first_listing(&mut r, false);
    assert_reads(to_segments(&mut r, data("<MPD/>"), &[1, 2, 3]), "chunk-1-00001.m4s");
    assert_reads(r.next(DashEvent::FileRead(None)), "chunk-1-00002.m4s");
    assert_reads(r.next(data("audio")), "chunk-0-00002.m4s");
    assert_reads(r.next(DashEvent::FileRead(None)), "chunk-1-00003.m4s");
    assert_eq!(send(&mut r, None).packet_id, 0);
    assert_waits(r.next(DashEvent::Sent));
}

#[test]
fn manifest_that_is_no_text_stops_each_segment() {
    let mut r = DashReader::new();
    to_first_listing(&mut r, false);
    let bad = DashEvent::FileRead(Some(Bytes::from_static(&[0x3c, 0xff, 0x3e])));
    assert_reads(to_segments(&mut r, bad, &[1, 2]), "chunk-1-00001.m4s");
    assert_reads(r.next(data("audio")), "chunk-0-00001.m4s");
    assert_reads(r.next(data("video")), "chunk-1-00002.m4s");
    r.next(data("audio"));
    assert_waits(r.next(data("video")));
    assert_eq!(r.packet_id(), 0);
}

#[test]
fn manifest_text_is_decoded() {
    let mut r = DashReader::new();
    to_first_listing(&mut r, false);
    to_segments(&mut r, data("<MPD t='\u{e9}\u{1f600}'/>"), &[1]);
    r.next(data("audio"));
    match r.next(data("video")) {
        DashAction::ParseMpd(text) => assert_eq!(text, "<MPD t='\u{e9}\u{1f600}'/>"),
        other => panic!("{other:?}"),
    }
}

#[test]
fn reader_waits_for_what_is_missing() {
    let mut r = DashReader::new();
    r.next(DashEvent::PassDue);
    assert_waits(r.next(DashEvent::Receivers(0)));
    for found in [(false, true), (true, false), (false, false)] {
        r.next(DashEvent::PassDue);
        r.next(DashEvent::Receivers(1));
        assert_waits(r.next(DashEvent::FilesFound(found.0, found.1)));
    }
    r.next(DashEvent::PassDue);
    r.next(DashEvent::Receivers(1));
    r.next(DashEvent::FilesFound(true, true));
    assert_waits(r.next(DashEvent::FileRead(None)));
    r.next(DashEvent::PassDue);
    r.next(DashEvent::Receivers(1));
    r.next(DashEvent::FilesFound(true, true));
    assert_reads(r.next(data("audio init")), "init-0.mp4");
    assert_waits(r.next(DashEvent::FileRead(None)));
    r.next(DashEvent::PassDue);
    r.next(DashEvent::Receivers(1));
    assert_reads(r.next(DashEvent::FilesFound(true, true)), "init-1.mp4");
    r.next(data("audio init"));
    r.next(data("video init"));
    assert_waits(r.next(DashEvent::FileFound(false)));
    to_first_listing(&mut r, true);
    assert_waits(r.next(DashEvent::Listed(None)));
    to_first_listing(&mut r, true);
    assert_waits(r.next(listing(&[])));
    to_first_listing(&mut r, true);
    match r.next(listing(&[9])) {
        DashAction::FindFiles(a, b) => {
            assert_eq!((a.as_str(), b.as_str()), ("chunk-1-00009.m4s", "chunk-0-00009.m4s"));
        }
        other => panic!("{other:?}"),
    }
    assert_waits(r.next(DashEvent::FilesFound(true, false)));
    to_first_listing(&mut r, true);
    r.next(listing(&[9]));
    r.next(DashEvent::FilesFound(true, true));
    assert_waits(r.next(DashEvent::FileRead(None)));
    to_first_listing(&mut r, true);
    r.next(listing(&[9]));
    r.next(DashEvent::FilesFound(true, true));
    r.next(data("<MPD/>"));
    assert_waits(r.next(DashEvent::Listed(None)));
}

#[test]
fn manifest_out_of_range_cannot_time() {
    let mut r = DashReader::new();
    to_first_listing(&mut r, false);
    to_segments(&mut r, data("<MPD/>"), &[9]);
    r.next(data("audio"));
    r.next(data("video"));
    let mut late = manifest(5);
    late.period.adaptation_sets[0].representations[0] = representation(0, u64::MAX, 1, 5);
    assert!(!r.can_time(Some(&late)));
    assert!(r.can_time(Some(&manifest(5))));
    assert!(r.can_time(None));
}

#[test]
fn reader_gives_both_timings() {
    let mut r = DashReader::new();
    to_first_listing(&mut r, false);
    to_segments(&mut r, data("<MPD/>"), &[3]);
    assert_eq!(r.timings(Some(&manifest(5))), Some(((600, 30_000), (700, 44_100))));
    assert_eq!(r.timings(Some(&manifest(2))), None);
    assert_eq!(r.timings(None), None);
}

use vivoh_quic_dash::segments::{
    audio_segment_name, find_common_segments, parse_segment_name, video_segment_name,
    AUDIO_PREFIX, VIDEO_PREFIX,
};

fn names(list: &[&str]) -> Vec<String> {
    list.iter().map(|s| s.to_string()).collect()
}

#[test]
fn numbers_in_names() {
    assert_eq!(parse_segment_name("chunk-1-00042.m4s", AUDIO_PREFIX), Some(42));
    assert_eq!(parse_segment_name("chunk-0-00042.m4s", AUDIO_PREFIX), None);
    assert_eq!(parse_segment_name("chunk-0-00042.m4s", VIDEO_PREFIX), Some(42));
    assert_eq!(parse_segment_name("chunk-1-7.m4s", AUDIO_PREFIX), Some(7));
    assert_eq!(parse_segment_name("chunk-1-.m4s", AUDIO_PREFIX), None);
    assert_eq!(parse_segment_name("chunk-1-+.m4s", AUDIO_PREFIX), None);
    assert_eq!(parse_segment_name("chunk-1--1.m4s", AUDIO_PREFIX), None);
    assert_eq!(parse_segment_name("chunk-1-1x.m4s", AUDIO_PREFIX), None);
    assert_eq!(parse_segment_name("chunk-1-4294967295.m4s", AUDIO_PREFIX), Some(u32::MAX));
    assert_eq!(parse_segment_name("chunk-1-4294967296.m4s", AUDIO_PREFIX), None);
    assert_eq!(parse_segment_name("chunk-1-00001.m4s.tmp", AUDIO_PREFIX), None);
    assert_eq!(parse_segment_name("chunk-1", AUDIO_PREFIX), None);
    assert_eq!(parse_segment_name("chunk-1-m4s", AUDIO_PREFIX), None);
    assert_eq!(parse_segment_name("", AUDIO_PREFIX), None);
}

#[test]
fn numbers_agree_with_the_standard_parser() {
    let texts = [
        "0", "00", "1", "+1", "++1", "+", "-", "-0", "", " 1", "1 ", "4294967295", "4294967296",
        "99999999999999999999", "0000000000000000000004294967295", "12a", "\u{0661}",
    ];
    for text in texts {
        let name = format!("chunk-1-{}.m4s", text);
        assert_eq!(parse_segment_name(&name, AUDIO_PREFIX), text.parse::<u32>().ok(), "{text:?}");
    }
}

#[test]
fn common_segments_have_both_files() {
    let files = names(&[
        "chunk-1-00003.m4s",
        "stream.mpd",
        "chunk-0-00001.m4s",
        "chunk-1-00002.m4s",
        "chunk-0-00003.m4s",
        "init-0.mp4",
        "chunk-0-00002.m4s",
        "chunk-1-00004.m4s",
    ]);
    assert_eq!(find_common_segments(&files), vec![2, 3]);
    assert_eq!(find_common_segments(&names(&[])), Vec::<u32>::new());
}

#[test]
fn common_segments_keep_audio_files_of_one_number() {
    let files = names(&["chunk-1-5.m4s", "chunk-0-00005.m4s", "chunk-1-00005.m4s"]);
    assert_eq!(find_common_segments(&files), vec![5, 5]);
    let files = names(&["chunk-0-5.m4s", "chunk-1-00005.m4s", "chunk-0-00005.m4s"]);
    assert_eq!(find_common_segments(&files), vec![5]);
}

#[test]
fn names_give_numbers() {
    assert_eq!(audio_segment_name(42), "chunk-1-00042.m4s");
    assert_eq!(video_segment_name(42), "chunk-0-00042.m4s");
    assert_eq!(audio_segment_name(123456), "chunk-1-123456.m4s");
    for n in [0, 1, 99_999, 100_000, u32::MAX] {
        assert_eq!(parse_segment_name(&audio_segment_name(n), AUDIO_PREFIX), Some(n));
        assert_eq!(parse_segment_name(&video_segment_name(n), VIDEO_PREFIX), Some(n));
    }
}

#[test]
fn order_of_the_listing_does_not_matter() {
    let mut files = names(&[
        "chunk-1-00003.m4s",
        "chunk-0-00001.m4s",
        "chunk-1-00001.m4s",
        "chunk-1-1.m4s",
        "chunk-0-00003.m4s",
        "chunk-0-00009.m4s",
    ]);
    for _ in 0..files.len() {
        files.rotate_left(1);
        assert_eq!(find_common_segments(&files), vec![1, 1, 3]);
        let mut reversed = files.clone();
        reversed.reverse();
        assert_eq!(find_common_segments(&reversed), vec![1, 1, 3]);
    }
}

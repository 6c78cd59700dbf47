use vivoh_quic_dash::extract_timings_from_mpd;
use vivoh_quic_dash::mpd::{
    looks_like_mpd, timings_fit, AdaptationSet, Mpd, Period, Representation, SegmentEntry, SegmentTemplate,
    SegmentTimeline,
};

type Entry = (Option<u64>, u32, Option<i32>);

fn representation(id: u32, start_number: Option<u32>, entries: &[Entry]) -> Representation {
    Representation {
        id,
        segment_template: SegmentTemplate {
            start_number,
            timescale: 30_000,
            timeline: SegmentTimeline {
                segments: entries
                    .iter()
                    .map(|e| SegmentEntry { start_time: e.0, duration: e.1, repeat: e.2 })
                    .collect(),
            },
        },
    }
}

fn mpd(sets: Vec<Vec<Representation>>) -> Mpd {
    Mpd {
        period: Period {
            adaptation_sets: sets
                .into_iter()
                .map(|representations| AdaptationSet { representations })
                .collect(),
        },
    }
}

fn both(start_number: Option<u32>, video: &[Entry], audio: &[Entry]) -> Mpd {
    mpd(vec![
        vec![representation(0, start_number, video)],
        vec![representation(1, start_number, audio)],
    ])
}

/// The walk written plainly, entry by entry and segment by segment.
fn plain(m: &Mpd, wanted: u32) -> Option<((u64, u32), (u64, u32))> {
    let mut result_video = None;
    let mut result_audio = None;
    for set in &m.period.adaptation_sets {
        for rep in &set.representations {
            let mut number = rep.segment_template.start_number.unwrap_or(1);
            let mut time = 0;
            for seg in &rep.segment_template.timeline.segments {
                let t = seg.start_time.unwrap_or(time);
                for _ in 0..=seg.repeat.unwrap_or(0) {
                    if number == wanted {
                        if rep.id == 0 {
                            result_video = Some((t, seg.duration));
                        } else if rep.id == 1 {
                            result_audio = Some((t, seg.duration));
                        }
                        break;
                    }
                    number += 1;
                    time = t + seg.duration as u64;
                }
            }
        }
    }
    match (result_video, result_audio) {
        (Some(v), Some(a)) => Some((v, a)),
        _ => None,
    }
}

fn check(m: &Mpd, wanted: u32) -> Option<((u64, u32), (u64, u32))> {
    assert!(timings_fit(Some(m), wanted));
    let r = extract_timings_from_mpd(Some(m), wanted);
    assert_eq!(r, plain(m, wanted));
    r
}

#[test]
fn no_manifest_times_nothing() {
    assert!(timings_fit(None, 7));
    assert_eq!(extract_timings_from_mpd(None, 7), None);
}

#[test]
fn one_entry_times_its_segment() {
    let m = both(None, &[(Some(900), 30_000, None)], &[(Some(1_000), 44_100, None)]);
    assert_eq!(check(&m, 1), Some(((900, 30_000), (1_000, 44_100))));
    assert_eq!(check(&m, 0), None);
    assert_eq!(check(&m, 2), None);
}

#[test]
fn last_entry_times_its_segment() {
    let m = both(
        Some(5),
        &[(Some(100), 10, None), (None, 20, None)],
        &[(Some(200), 30, None), (Some(900), 40, None)],
    );
    assert_eq!(check(&m, 6), Some(((110, 20), (900, 40))));
}

#[test]
fn later_entries_replace_the_timing() {
    let m = both(
        Some(5),
        &[(Some(100), 10, None), (Some(110), 20, None), (Some(130), 25, Some(-1))],
        &[(Some(200), 30, None), (None, 40, None)],
    );
    assert_eq!(check(&m, 5), Some(((110, 20), (0, 40))));
}

#[test]
fn repeats_share_the_start_of_their_entry() {
    let m = both(
        Some(10),
        &[(Some(1_000), 100, Some(4))],
        &[(None, 50, Some(4))],
    );
    assert_eq!(check(&m, 9), None);
    assert_eq!(check(&m, 10), Some(((1_000, 100), (0, 50))));
    assert_eq!(check(&m, 14), Some(((1_000, 100), (0, 50))));
    assert_eq!(check(&m, 15), None);
}

#[test]
fn both_representations_must_time_the_segment() {
    let only_video = mpd(vec![vec![representation(0, None, &[(None, 10, None)])]]);
    assert_eq!(check(&only_video, 1), None);
    let others = mpd(vec![vec![
        representation(0, None, &[(None, 10, None)]),
        representation(2, None, &[(None, 10, None)]),
    ]]);
    assert_eq!(check(&others, 1), None);
    let m = both(Some(1), &[(None, 10, Some(3))], &[(None, 10, Some(1))]);
    assert!(check(&m, 2).is_some());
    assert_eq!(check(&m, 3), None);
}

#[test]
fn last_representation_of_an_id_wins() {
    let m = mpd(vec![
        vec![
            representation(0, None, &[(Some(1), 10, None)]),
            representation(0, None, &[(Some(2), 20, None)]),
        ],
        vec![
            representation(1, None, &[(Some(3), 30, None)]),
            representation(1, Some(9), &[(Some(4), 40, None)]),
        ],
    ]);
    assert_eq!(check(&m, 1), Some(((2, 20), (3, 30))));
}

#[test]
fn timings_agree_with_the_plain_walk() {
    let starts = [None, Some(0), Some(500)];
    let repeats = [None, Some(-1), Some(0), Some(2)];
    let mut entries: Vec<Entry> = Vec::new();
    for start in starts {
        for repeat in repeats {
            entries.push((start, 7 + entries.len() as u32, repeat));
        }
    }
    for a in 0..entries.len() {
        for b in 0..entries.len() {
            let video = [entries[a], entries[b], entries[(a + b) % entries.len()]];
            let audio = [entries[b], entries[a]];
            let m = both(Some(3), &video, &audio);
            for wanted in 0..14 {
                check(&m, wanted);
            }
        }
    }
}

#[test]
fn numbers_and_times_out_of_range_do_not_fit() {
    let late = both(None, &[(Some(u64::MAX), 1, None)], &[(None, 1, None)]);
    assert!(timings_fit(Some(&late), 1));
    assert!(!timings_fit(Some(&late), 2));
    let many = both(Some(u32::MAX), &[(None, 1, None)], &[(None, 1, None)]);
    assert!(timings_fit(Some(&many), u32::MAX));
    assert!(!timings_fit(Some(&many), 0));
}

#[test]
fn beginnings_of_manifests() {
    assert!(looks_like_mpd("<?xml version='1.0'?>"));
    assert!(looks_like_mpd("<MPD>"));
    assert!(looks_like_mpd(" \t\r\n\u{3000}<MPD"));
    assert!(looks_like_mpd("<MPD"));
    assert!(!looks_like_mpd(""));
    assert!(!looks_like_mpd("   "));
    assert!(!looks_like_mpd("<?xm"));
    assert!(!looks_like_mpd("<mpd>"));
    assert!(!looks_like_mpd("x<MPD>"));
}

#[test]
fn white_space_agrees_with_the_standard_library() {
    for c in '\0'..=char::MAX {
        assert_eq!(looks_like_mpd(&format!("{c}<MPD")), c.is_whitespace(), "{c:?}");
    }
}

#[test]
fn empty_entries_and_other_representations_do_not_matter() {
    let entries = [(Some(100), 10, Some(2)), (None, 20, None)];
    let with_empty = [entries[0], (Some(7), 99, Some(-1)), entries[1]];
    let plain_mpd = both(Some(1), &entries, &entries);
    let empty_mpd = both(Some(1), &with_empty, &with_empty);
    let mut other_mpd = both(Some(1), &entries, &entries);
    other_mpd.period.adaptation_sets[0]
        .representations
        .push(representation(2, None, &[(Some(5), 5, Some(9))]));
    for wanted in 0..6 {
        let timings = check(&plain_mpd, wanted);
        assert_eq!(check(&empty_mpd, wanted), timings);
        assert_eq!(check(&other_mpd, wanted), timings);
    }
}

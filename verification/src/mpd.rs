//! The part of a DASH manifest (MPD) that times the segments.

use vstd::prelude::*;
use crate::text::{chars_of, stands_at, starts_with};

verus! {

/// A manifest.
#[derive(Debug)]
pub struct Mpd {
    pub period: Period,
}

/// The one period of a manifest.
#[derive(Debug)]
pub struct Period {
    pub adaptation_sets: Vec<AdaptationSet>,
}

/// Representations that stand for one another.
#[derive(Debug)]
pub struct AdaptationSet {
    pub representations: Vec<Representation>,
}

/// One encoding of the media.
#[derive(Debug)]
pub struct Representation {
    pub segment_template: SegmentTemplate,
    pub id: u32,
}

/// How the segments of a representation are numbered and timed.
#[derive(Debug)]
pub struct SegmentTemplate {
    pub start_number: Option<u32>,
    pub timescale: u32,
    pub timeline: SegmentTimeline,
}

/// The timeline of a representation.
#[derive(Debug)]
pub struct SegmentTimeline {
    pub segments: Vec<SegmentEntry>,
}

/// An entry of a timeline: a segment, and `repeat` more of the same duration.
#[derive(Debug)]
pub struct SegmentEntry {
    pub start_time: Option<u64>,
    pub duration: u32,
    pub repeat: Option<i32>,
}

/// The id of the video representation.
pub const VIDEO_ID: u32 = 0;

/// The id of the audio representation.
pub const AUDIO_ID: u32 = 1;

impl SegmentEntry {
    /// How many segments the entry counts. A negative repeat counts none.
    pub open spec fn count(&self) -> nat {
        match self.repeat {
            None => 1,
            Some(r) => if r < 0 {
                0
            } else {
                (r + 1) as nat
            },
        }
    }
}

/// How far a walk along a timeline has come: the number and the time of the next
/// segment, and the timing of the wanted segment once it has been met.
pub struct Cursor {
    pub number: nat,
    pub time: nat,
    pub found: Option<(u64, u32)>,
}

impl Cursor {
    /// The number and the time are within the range of their machine types.
    pub open spec fn fits(self) -> bool {
        self.number <= u32::MAX && self.time <= u64::MAX
    }

    /// The cursor after `entry`, in search of the segment `wanted`. All segments of an
    /// entry share its start time. The walk stays at the wanted number once it has
    /// come there, so each later entry that counts a segment replaces the timing.
    pub open spec fn after(self, entry: SegmentEntry, wanted: u32) -> Cursor {
        let start = match entry.start_time {
            Some(t) => t as nat,
            None => self.time,
        };
        let end = start + entry.duration as nat;
        if entry.count() == 0 {
            self
        } else if self.number <= wanted < self.number + entry.count() {
            Cursor {
                number: wanted as nat,
                time: if wanted == self.number {
                    self.time
                } else {
                    end
                },
                found: Some((start as u64, entry.duration)),
            }
        } else {
            Cursor { number: self.number + entry.count(), time: end, found: self.found }
        }
    }

    /// The cursor after all `entries`.
    pub open spec fn after_all(self, entries: Seq<SegmentEntry>, wanted: u32) -> Cursor
        decreases entries.len(),
    {
        if entries.len() == 0 {
            self
        } else {
            self.after_all(entries.drop_last(), wanted).after(entries.last(), wanted)
        }
    }
}

impl Representation {
    /// The number of the first segment; one, where the template does not say.
    pub open spec fn first_number(&self) -> nat {
        match self.segment_template.start_number {
            Some(n) => n as nat,
            None => 1,
        }
    }

    /// The entries of the timeline.
    pub open spec fn entries(&self) -> Seq<SegmentEntry> {
        self.segment_template.timeline.segments@
    }

    /// The walk along the first `k` entries.
    pub open spec fn walk(&self, k: int, wanted: u32) -> Cursor {
        (Cursor { number: self.first_number(), time: 0, found: None }).after_all(
            self.entries().take(k),
            wanted,
        )
    }

    /// The numbers and times of the walk stay in range.
    pub open spec fn fits(&self, wanted: u32) -> bool {
        forall|k: int| 0 <= k <= self.entries().len() ==> (#[trigger] self.walk(k, wanted)).fits()
    }

    /// The start time and the duration of the segment `wanted`.
    pub open spec fn timing(&self, wanted: u32) -> Option<(u64, u32)> {
        self.walk(self.entries().len() as int, wanted).found
    }
}

/// The timing in the last of `reps` that has the id and times the segment.
pub open spec fn last_timing(reps: Seq<Representation>, id: u32, wanted: u32) -> Option<(u64, u32)>
    decreases reps.len(),
{
    if reps.len() == 0 {
        None
    } else if reps.last().id == id && reps.last().timing(wanted) is Some {
        reps.last().timing(wanted)
    } else {
        last_timing(reps.drop_last(), id, wanted)
    }
}

/// The timing in the last of `sets` that has one for the id.
pub open spec fn last_timing_in(sets: Seq<AdaptationSet>, id: u32, wanted: u32) -> Option<
    (u64, u32),
>
    decreases sets.len(),
{
    if sets.len() == 0 {
        None
    } else if last_timing(sets.last().representations@, id, wanted) is Some {
        last_timing(sets.last().representations@, id, wanted)
    } else {
        last_timing_in(sets.drop_last(), id, wanted)
    }
}

impl AdaptationSet {
    /// Every walk of the set stays in range.
    pub open spec fn fits(&self, wanted: u32) -> bool {
        forall|i: int|
            0 <= i < self.representations@.len() ==> (#[trigger] self.representations@[i]).fits(
                wanted,
            )
    }
}

impl Mpd {
    /// Every walk of the manifest stays in range.
    pub open spec fn fits(&self, wanted: u32) -> bool {
        forall|i: int|
            0 <= i < self.period.adaptation_sets@.len() ==> (
            #[trigger] self.period.adaptation_sets@[i]).fits(wanted)
    }

    /// The timing of the segment `wanted` in the representation `id`.
    pub open spec fn timing(&self, id: u32, wanted: u32) -> Option<(u64, u32)> {
        last_timing_in(self.period.adaptation_sets@, id, wanted)
    }

    /// The timings of the segment `wanted`, video first, where both are known.
    pub open spec fn timings(&self, wanted: u32) -> Option<((u64, u32), (u64, u32))> {
        match (self.timing(VIDEO_ID, wanted), self.timing(AUDIO_ID, wanted)) {
            (Some(video), Some(audio)) => Some((video, audio)),
            _ => None,
        }
    }
}

/// The timing of the segment `wanted`, or `None` where a number or a time of the walk
/// leaves the range of its type.
fn walk_timeline(rep: &Representation, wanted: u32) -> (r: Option<Option<(u64, u32)>>)
    ensures
        r == if rep.fits(wanted) {
            Some(rep.timing(wanted))
        } else {
            None
        },
{
    let mut number: u32 = match rep.segment_template.start_number {
        Some(n) => n,
        None => 1,
    };
    let mut time: u64 = 0;
    let mut found: Option<(u64, u32)> = None;
    let entries: &Vec<SegmentEntry> = &rep.segment_template.timeline.segments;
    let mut i: usize = 0;
    while i < entries.len()
        invariant
            i <= entries@.len(),
            entries@ == rep.entries(),
            rep.walk(i as int, wanted) == (Cursor {
                number: number as nat,
                time: time as nat,
                found,
            }),
            forall|k: int| 0 <= k <= i ==> (#[trigger] rep.walk(k, wanted)).fits(),
        decreases entries.len() - i,
    {
        let entry: &SegmentEntry = &entries[i];
        let ghost before = rep.walk(i as int, wanted);
        assert(rep.walk(i + 1, wanted) == before.after(*entry, wanted)) by {
            assert(rep.entries().take(i + 1).drop_last() =~= rep.entries().take(i as int));
        }
        let count: u64 = match entry.repeat {
            None => 1,
            Some(r) => if r < 0 {
                0
            } else {
                r as u64 + 1
            },
        };
        if count > 0 {
            let start: u64 = match entry.start_time {
                Some(t) => t,
                None => time,
            };
            if number <= wanted && ((wanted - number) as u64) < count {
                if wanted > number {
                    match start.checked_add(entry.duration as u64) {
                        Some(end) => {
                            time = end;
                        },
                        None => {
                            assert(!rep.walk(i + 1, wanted).fits());
                            return None;
                        },
                    }
                    number = wanted;
                }
                found = Some((start, entry.duration));
            } else {
                match start.checked_add(entry.duration as u64) {
                    Some(end) => {
                        time = end;
                    },
                    None => {
                        assert(!rep.walk(i + 1, wanted).fits());
                        return None;
                    },
                }
                if number as u64 + count > u32::MAX as u64 {
                    assert(!rep.walk(i + 1, wanted).fits());
                    return None;
                }
                number = (number as u64 + count) as u32;
            }
        }
        i = i + 1;
        assert(rep.walk(i as int, wanted).fits());
    }
    Some(found)
}

/// The timings of video and audio that the manifest gives the segment `wanted`, or
/// `None` where a walk of the manifest leaves the range of its types.
fn walk_mpd(mpd: &Mpd, wanted: u32) -> (r: Option<(Option<(u64, u32)>, Option<(u64, u32)>)>)
    ensures
        r == if mpd.fits(wanted) {
            Some((mpd.timing(VIDEO_ID, wanted), mpd.timing(AUDIO_ID, wanted)))
        } else {
            None
        },
{
    let mut video: Option<(u64, u32)> = None;
    let mut audio: Option<(u64, u32)> = None;
    let sets: &Vec<AdaptationSet> = &mpd.period.adaptation_sets;
    let mut i: usize = 0;
    while i < sets.len()
        invariant
            i <= sets@.len(),
            sets@ == mpd.period.adaptation_sets@,
            video == last_timing_in(sets@.take(i as int), VIDEO_ID, wanted),
            audio == last_timing_in(sets@.take(i as int), AUDIO_ID, wanted),
            forall|k: int| 0 <= k < i ==> (#[trigger] sets@[k]).fits(wanted),
        decreases sets.len() - i,
    {
        let reps: &Vec<Representation> = &sets[i].representations;
        let ghost video_before = video;
        let ghost audio_before = audio;
        let mut j: usize = 0;
        while j < reps.len()
            invariant
                i < sets@.len(),
                sets@ == mpd.period.adaptation_sets@,
                reps@ == sets@[i as int].representations@,
                j <= reps@.len(),
                video == match last_timing(reps@.take(j as int), VIDEO_ID, wanted) {
                    Some(t) => Some(t),
                    None => video_before,
                },
                audio == match last_timing(reps@.take(j as int), AUDIO_ID, wanted) {
                    Some(t) => Some(t),
                    None => audio_before,
                },
                forall|k: int| 0 <= k < j ==> (#[trigger] reps@[k]).fits(wanted),
            decreases reps.len() - j,
        {
            let rep: &Representation = &reps[j];
            assert(reps@.take(j + 1).drop_last() =~= reps@.take(j as int));
            match walk_timeline(rep, wanted) {
                None => {
                    assert(!sets@[i as int].fits(wanted)) by {
                        assert(!sets@[i as int].representations@[j as int].fits(wanted));
                    }
                    return None;
                },
                Some(Some(timing)) => {
                    if rep.id == VIDEO_ID {
                        video = Some(timing);
                    } else if rep.id == AUDIO_ID {
                        audio = Some(timing);
                    }
                },
                Some(None) => {},
            }
            j = j + 1;
        }
        assert(reps@.take(j as int) =~= reps@);
        assert(sets@.take(i + 1).drop_last() =~= sets@.take(i as int));
        i = i + 1;
    }
    assert(sets@.take(i as int) =~= sets@);
    Some((video, audio))
}

/// Whether the numbers and times that timing the segment takes stay in range.
pub fn timings_fit(parsed: Option<&Mpd>, segment_number: u32) -> (r: bool)
    ensures
        r == match parsed {
            Some(mpd) => mpd.fits(segment_number),
            None => true,
        },
{
    match parsed {
        Some(mpd) => walk_mpd(mpd, segment_number).is_some(),
        None => true,
    }
}

/// The start time and duration of the segment, in ticks, first of the video and then of
/// the audio. `parsed` is the manifest, or `None` where its text could not be read.
/// There is no answer where there is no manifest, or where it does not time the
/// segment in both representations.
pub fn extract_timings_from_mpd(parsed: Option<&Mpd>, segment_number: u32) -> (r: Option<
    ((u64, u32), (u64, u32)),
>)
    requires
        parsed matches Some(mpd) ==> mpd.fits(segment_number),
    ensures
        r == match parsed {
            Some(mpd) => mpd.timings(segment_number),
            None => None,
        },
{
    match parsed {
        Some(mpd) => match walk_mpd(mpd, segment_number) {
            Some((Some(video), Some(audio))) => Some((video, audio)),
            _ => None,
        },
        None => None,
    }
}

/// How many segments `entries` count.
pub open spec fn total_count(entries: Seq<SegmentEntry>) -> nat
    decreases entries.len(),
{
    if entries.len() == 0 {
        0
    } else {
        total_count(entries.drop_last()) + entries.last().count()
    }
}

proof fn lemma_walk(start: Cursor, entries: Seq<SegmentEntry>, wanted: u32)
    requires
        start.found is None,
    ensures
        ({
            let end = start.after_all(entries, wanted);
            let counted = start.number <= wanted < start.number + total_count(entries);
            &&& end.found is Some <==> counted
            &&& end.number == if counted {
                wanted as nat
            } else {
                start.number + total_count(entries)
            }
        }),
    decreases entries.len(),
{
    if entries.len() > 0 {
        lemma_walk(start, entries.drop_last(), wanted);
    }
}

/// A representation times exactly the segments that its timeline counts, from its
/// first number on.
pub proof fn law_timed_iff_counted(rep: Representation, wanted: u32)
    ensures
        rep.timing(wanted) is Some <==> rep.first_number() <= wanted < rep.first_number()
            + total_count(rep.entries()),
{
    assert(rep.entries().take(rep.entries().len() as int) =~= rep.entries());
    lemma_walk(
        Cursor { number: rep.first_number(), time: 0, found: None },
        rep.entries(),
        wanted,
    );
}

/// The duration of the last of `entries` that counts a segment.
pub open spec fn last_duration(entries: Seq<SegmentEntry>) -> Option<u32>
    decreases entries.len(),
{
    if entries.len() == 0 {
        None
    } else if entries.last().count() > 0 {
        Some(entries.last().duration)
    } else {
        last_duration(entries.drop_last())
    }
}

proof fn lemma_last_duration(start: Cursor, entries: Seq<SegmentEntry>, wanted: u32)
    requires
        start.found is None,
    ensures
        start.after_all(entries, wanted).found matches Some(t) ==> last_duration(entries) == Some(
            t.1,
        ),
    decreases entries.len(),
{
    if entries.len() > 0 {
        lemma_last_duration(start, entries.drop_last(), wanted);
        lemma_walk(start, entries.drop_last(), wanted);
    }
}

/// The duration that a timed segment is given is that of the last entry which counts a
/// segment, whichever entry counts the segment itself.
pub proof fn law_duration_of_last_entry(rep: Representation, wanted: u32)
    ensures
        rep.timing(wanted) matches Some(t) ==> last_duration(rep.entries()) == Some(t.1),
{
    assert(rep.entries().take(rep.entries().len() as int) =~= rep.entries());
    lemma_last_duration(
        Cursor { number: rep.first_number(), time: 0, found: None },
        rep.entries(),
        wanted,
    );
}

/// A segment that the last entry counts starts where that entry starts, or at the end of
/// what comes before where the entry does not say, and lasts as long as the entry says.
pub proof fn law_timing_in_last_entry(rep: Representation, wanted: u32)
    requires
        rep.entries().len() > 0,
        rep.first_number() + total_count(rep.entries().drop_last()) <= wanted,
        wanted < rep.first_number() + total_count(rep.entries()),
    ensures
        ({
            let before = rep.walk(rep.entries().len() - 1, wanted);
            let last = rep.entries().last();
            let start = match last.start_time {
                Some(t) => t,
                None => before.time as u64,
            };
            rep.timing(wanted) == Some((start, last.duration))
        }),
{
    let all = rep.entries();
    assert(all.take(all.len() as int) =~= all);
    assert(all.take(all.len() - 1) =~= all.drop_last());
    lemma_walk(
        Cursor { number: rep.first_number(), time: 0, found: None },
        all.drop_last(),
        wanted,
    );
}

proof fn lemma_empty_entry(start: Cursor, entries: Seq<SegmentEntry>, k: int, wanted: u32)
    requires
        0 <= k < entries.len(),
        entries[k].count() == 0,
    ensures
        start.after_all(entries.remove(k), wanted) == start.after_all(entries, wanted),
    decreases entries.len(),
{
    if k == entries.len() - 1 {
        assert(entries.remove(k) =~= entries.drop_last());
    } else {
        assert(entries.remove(k).drop_last() =~= entries.drop_last().remove(k));
        lemma_empty_entry(start, entries.drop_last(), k, wanted);
    }
}

/// An entry that counts no segment, as one of negative repeat does, does not matter:
/// without it every segment has the timing that it had.
pub proof fn law_empty_entry_does_not_matter(
    rep: Representation,
    without: Representation,
    k: int,
    wanted: u32,
)
    requires
        0 <= k < rep.entries().len(),
        rep.entries()[k].count() == 0,
        without.first_number() == rep.first_number(),
        without.entries() == rep.entries().remove(k),
    ensures
        without.timing(wanted) == rep.timing(wanted),
{
    assert(rep.entries().take(rep.entries().len() as int) =~= rep.entries());
    assert(without.entries().take(without.entries().len() as int) =~= without.entries());
    lemma_empty_entry(
        Cursor { number: rep.first_number(), time: 0, found: None },
        rep.entries(),
        k,
        wanted,
    );
}

proof fn lemma_other_representation(reps: Seq<Representation>, k: int, id: u32, wanted: u32)
    requires
        0 <= k < reps.len(),
        reps[k].id != id,
    ensures
        last_timing(reps.remove(k), id, wanted) == last_timing(reps, id, wanted),
    decreases reps.len(),
{
    if k == reps.len() - 1 {
        assert(reps.remove(k) =~= reps.drop_last());
    } else {
        assert(reps.remove(k).drop_last() =~= reps.drop_last().remove(k));
        lemma_other_representation(reps.drop_last(), k, id, wanted);
    }
}

proof fn lemma_same_timings(
    sets: Seq<AdaptationSet>,
    others: Seq<AdaptationSet>,
    id: u32,
    wanted: u32,
)
    requires
        sets.len() == others.len(),
        forall|j: int|
            0 <= j < sets.len() ==> last_timing(#[trigger] sets[j].representations@, id, wanted)
                == last_timing(others[j].representations@, id, wanted),
    ensures
        last_timing_in(sets, id, wanted) == last_timing_in(others, id, wanted),
    decreases sets.len(),
{
    if sets.len() > 0 {
        assert(sets.last() == sets[sets.len() - 1]);
        assert(last_timing(sets[sets.len() - 1].representations@, id, wanted) == last_timing(
            others[sets.len() - 1].representations@,
            id,
            wanted,
        ));
        assert forall|j: int| 0 <= j < sets.drop_last().len() implies last_timing(
            #[trigger] sets.drop_last()[j].representations@,
            id,
            wanted,
        ) == last_timing(others.drop_last()[j].representations@, id, wanted) by {
            assert(sets.drop_last()[j].representations@ == sets[j].representations@);
        }
        lemma_same_timings(sets.drop_last(), others.drop_last(), id, wanted);
    }
}

/// A representation that is neither the video nor the audio does not matter: without it
/// every segment has the timings that it had.
pub proof fn law_other_representation_does_not_matter(
    mpd: Mpd,
    without: Mpd,
    i: int,
    k: int,
    wanted: u32,
)
    requires
        0 <= i < mpd.period.adaptation_sets@.len(),
        0 <= k < mpd.period.adaptation_sets@[i].representations@.len(),
        mpd.period.adaptation_sets@[i].representations@[k].id != VIDEO_ID,
        mpd.period.adaptation_sets@[i].representations@[k].id != AUDIO_ID,
        without.period.adaptation_sets@.len() == mpd.period.adaptation_sets@.len(),
        without.period.adaptation_sets@[i].representations@
            == mpd.period.adaptation_sets@[i].representations@.remove(k),
        forall|j: int|
            0 <= j < mpd.period.adaptation_sets@.len() && j != i ==> (
            #[trigger] mpd.period.adaptation_sets@[j]).representations@
                == without.period.adaptation_sets@[j].representations@,
    ensures
        without.timings(wanted) == mpd.timings(wanted),
{
    let sets = mpd.period.adaptation_sets@;
    let others = without.period.adaptation_sets@;
    lemma_other_representation(sets[i].representations@, k, VIDEO_ID, wanted);
    lemma_other_representation(sets[i].representations@, k, AUDIO_ID, wanted);
    lemma_same_timings(sets, others, VIDEO_ID, wanted);
    lemma_same_timings(sets, others, AUDIO_ID, wanted);
}

/// `c` is white space.
pub open spec fn is_white_space(c: char) -> bool {
    ||| '\u{9}' <= c <= '\u{d}'
    ||| c == ' '
    ||| c == '\u{85}'
    ||| c == '\u{a0}'
    ||| c == '\u{1680}'
    ||| '\u{2000}' <= c <= '\u{200a}'
    ||| c == '\u{2028}'
    ||| c == '\u{2029}'
    ||| c == '\u{202f}'
    ||| c == '\u{205f}'
    ||| c == '\u{3000}'
}

/// `s` without the white space in front.
pub open spec fn trimmed(s: Seq<char>) -> Seq<char>
    decreases s.len(),
{
    if s.len() > 0 && is_white_space(s[0]) {
        trimmed(s.skip(1))
    } else {
        s
    }
}

/// Whether `c` is white space.
fn white_space(c: char) -> (r: bool)
    ensures
        r == is_white_space(c),
{
    ('\u{9}' <= c && c <= '\u{d}') || c == ' ' || c == '\u{85}' || c == '\u{a0}' || c
        == '\u{1680}' || ('\u{2000}' <= c && c <= '\u{200a}') || c == '\u{2028}' || c
        == '\u{2029}' || c == '\u{202f}' || c == '\u{205f}' || c == '\u{3000}'
}

/// Whether the text begins as a manifest does, with an XML declaration or the manifest's
/// own tag, after any white space.
pub fn looks_like_mpd(text: &str) -> (r: bool)
    ensures
        r == (starts_with(trimmed(text@), "<?xml"@) || starts_with(trimmed(text@), "<MPD"@)),
{
    let chars: Vec<char> = chars_of(text);
    let mut i: usize = 0;
    assert(chars@.skip(0) =~= chars@);
    while i < chars.len() && white_space(chars[i])
        invariant
            i <= chars@.len(),
            trimmed(chars@) == trimmed(chars@.skip(i as int)),
        decreases chars.len() - i,
    {
        assert(chars@.skip(i as int).skip(1) =~= chars@.skip(i + 1));
        i = i + 1;
    }
    let ghost rest = chars@.skip(i as int);
    assert(trimmed(chars@) == rest);
    let xml: Vec<char> = chars_of("<?xml");
    let mpd: Vec<char> = chars_of("<MPD");
    let left: usize = chars.len() - i;
    assert(left >= xml.len() ==> chars@.subrange(i as int, i + xml@.len()) =~= rest.subrange(
        0,
        xml@.len() as int,
    ));
    assert(left >= mpd.len() ==> chars@.subrange(i as int, i + mpd@.len()) =~= rest.subrange(
        0,
        mpd@.len() as int,
    ));
    (left >= xml.len() && stands_at(&chars, i, &xml)) || (left >= mpd.len() && stands_at(
        &chars,
        i,
        &mpd,
    ))
}

/// An entry counts one segment and as many more as it repeats; a negative repeat counts
/// none.
pub proof fn law_repeat_counts(entry: SegmentEntry)
    ensures
        entry.repeat is None ==> entry.count() == 1,
        entry.repeat matches Some(r) ==> r >= 0 ==> entry.count() == r + 1,
        entry.repeat matches Some(r) ==> r < 0 ==> entry.count() == 0,
{
}

/// The numbers of a representation begin with the start number, or with one where there is
/// none.
pub proof fn law_numbers_begin(rep: Representation)
    ensures
        rep.segment_template.start_number matches Some(n) ==> rep.first_number() == n,
        rep.segment_template.start_number is None ==> rep.first_number() == 1,
        rep.entries() == rep.segment_template.timeline.segments@,
{
}

/// A timeline of one entry times the segments from the first number on, one more than the
/// entry repeats. All of them start where the entry starts, at zero where it does not say,
/// and last as long as it says.
pub proof fn law_timeline_of_one_entry(rep: Representation, first: int, repeat: int, wanted: u32)
    requires
        rep.entries().len() == 1,
        first == match rep.segment_template.start_number {
            Some(n) => n as int,
            None => 1,
        },
        repeat == match rep.entries()[0].repeat {
            Some(r) => r as int,
            None => 0,
        },
    ensures
        rep.timing(wanted) is Some <==> first <= wanted <= first + repeat,
        rep.timing(wanted) matches Some(timing) ==> timing.1 == rep.entries()[0].duration
            && timing.0 == match rep.entries()[0].start_time {
            Some(t) => t,
            None => 0,
        },
{
    law_timed_iff_counted(rep, wanted);
    let all = rep.entries();
    assert(all.drop_last() =~= Seq::<SegmentEntry>::empty());
    assert(total_count(all.drop_last()) == 0);
    if rep.timing(wanted) is Some {
        assert(all.take(0) =~= Seq::<SegmentEntry>::empty());
        law_timing_in_last_entry(rep, wanted);
    }
}

/// Where the last of `entries` that counts a segment ends: its duration after its start,
/// which is where the one before it ends where it does not say.
pub open spec fn end_of(entries: Seq<SegmentEntry>) -> nat
    decreases entries.len(),
{
    if entries.len() == 0 {
        0
    } else {
        let last = entries.last();
        let before = end_of(entries.drop_last());
        if last.repeat matches Some(r) && r < 0 {
            before
        } else {
            match last.start_time {
                Some(t) => t as nat + last.duration as nat,
                None => before + last.duration as nat,
            }
        }
    }
}

proof fn lemma_walk_time(start: Cursor, entries: Seq<SegmentEntry>, wanted: u32)
    requires
        start.time == 0,
        start.found is None,
        !(start.number <= wanted < start.number + total_count(entries)),
    ensures
        start.after_all(entries, wanted) == (Cursor {
            number: start.number + total_count(entries),
            time: end_of(entries),
            found: None,
        }),
    decreases entries.len(),
{
    if entries.len() > 0 {
        lemma_walk_time(start, entries.drop_last(), wanted);
    }
}

proof fn lemma_take_counts(entries: Seq<SegmentEntry>, k: int)
    requires
        0 <= k < entries.len(),
    ensures
        total_count(entries.take(k + 1)) == total_count(entries.take(k)) + entries[k].count(),
        total_count(entries.take(k)) <= total_count(entries),
    decreases entries.len(),
{
    assert(entries.take(k + 1).drop_last() =~= entries.take(k));
    if k < entries.len() - 1 {
        assert(entries.drop_last().take(k) =~= entries.take(k));
        lemma_take_counts(entries.drop_last(), k);
    } else {
        assert(entries.take(k) =~= entries.drop_last());
    }
}

/// A segment that the last entry counts, where that entry does not say when it starts,
/// starts where the entry before it ends. The entry before has the start time `t` and
/// counts other segments.
pub proof fn law_entry_follows_the_one_before(rep: Representation, t: u64, wanted: u32)
    requires
        rep.entries().len() >= 2,
        rep.entries().last().start_time is None,
        rep.entries()[rep.entries().len() - 2].start_time == Some(t),
        rep.entries()[rep.entries().len() - 2].count() >= 1,
        rep.first_number() + total_count(rep.entries().drop_last()) <= wanted,
        wanted < rep.first_number() + total_count(rep.entries()),
        t + rep.entries()[rep.entries().len() - 2].duration <= u64::MAX,
    ensures
        rep.timing(wanted) matches Some(timing) && timing.0 == t
            + rep.entries()[rep.entries().len() - 2].duration && timing.1
            == rep.entries().last().duration,
{
    let all = rep.entries();
    let start = Cursor { number: rep.first_number(), time: 0, found: None };
    law_timing_in_last_entry(rep, wanted);
    assert(all.take(all.len() - 1) =~= all.drop_last());
    lemma_walk_time(start, all.drop_last(), wanted);
    assert(all.drop_last().last() == all[all.len() - 2]);
}

/// A segment that the last entry counts starts where that entry says, or where what comes
/// before it ends.
pub proof fn law_start_in_last_entry(rep: Representation, wanted: u32)
    requires
        rep.entries().len() > 0,
        rep.first_number() + total_count(rep.entries().drop_last()) <= wanted,
        wanted < rep.first_number() + total_count(rep.entries()),
        end_of(rep.entries().drop_last()) <= u64::MAX,
    ensures
        rep.timing(wanted) matches Some(timing) && timing.0 == match rep.entries().last().start_time {
            Some(t) => t as nat,
            None => end_of(rep.entries().drop_last()),
        } && timing.1 == rep.entries().last().duration,
{
    let all = rep.entries();
    law_timing_in_last_entry(rep, wanted);
    assert(all.take(all.len() - 1) =~= all.drop_last());
    lemma_walk_time(
        Cursor { number: rep.first_number(), time: 0, found: None },
        all.drop_last(),
        wanted,
    );
}

/// Where the entry `k` counts the wanted segment: the time of the walk stands still there.
spec fn halt(entries: Seq<SegmentEntry>, k: int, is_first: bool) -> nat {
    if is_first {
        end_of(entries.take(k))
    } else {
        end_of(entries.take(k + 1))
    }
}

proof fn lemma_walk_halts(start: Cursor, entries: Seq<SegmentEntry>, k: int, wanted: u32)
    requires
        start.time == 0,
        start.found is None,
        0 <= k < entries.len(),
        start.number + total_count(entries.take(k)) <= wanted,
        wanted < start.number + total_count(entries.take(k)) + entries[k].count(),
    ensures
        ({
            let end = start.after_all(entries, wanted);
            &&& end.number == wanted
            &&& end.time == halt(
                entries,
                k,
                wanted == start.number + total_count(entries.take(k)),
            )
        }),
    decreases entries.len(),
{
    let front = entries.drop_last();
    if k == entries.len() - 1 {
        assert(entries.take(k) =~= front);
        assert(entries.take(k + 1) =~= entries);
        lemma_walk_time(start, front, wanted);
    } else {
        assert(front.take(k) =~= entries.take(k));
        assert(front.take(k + 1) =~= entries.take(k + 1));
        lemma_walk_halts(start, front, k, wanted);
    }
}

/// A segment that an earlier entry `k` counts has the timing of the last entry, where that
/// counts a segment. Where the last entry does not say when it starts, it is taken to start
/// where the time stood when the segment was met: at the end of what comes before the entry
/// `k` for the first segment of that entry, and at the end of the entry for the others.
pub proof fn law_timing_of_earlier_segment(rep: Representation, k: int, wanted: u32)
    requires
        0 <= k < rep.entries().len() - 1,
        rep.first_number() + total_count(rep.entries().take(k)) <= wanted,
        wanted < rep.first_number() + total_count(rep.entries().take(k))
            + rep.entries()[k].count(),
        rep.entries().last().count() > 0,
        end_of(rep.entries().take(k)) <= u64::MAX,
        end_of(rep.entries().take(k + 1)) <= u64::MAX,
    ensures
        ({
            let last = rep.entries().last();
            &&& rep.timing(wanted) matches Some(timing) && timing.1 == last.duration && timing.0
                == match last.start_time {
                Some(t) => t as nat,
                None => if wanted == rep.first_number() + total_count(rep.entries().take(k)) {
                    end_of(rep.entries().take(k))
                } else {
                    end_of(rep.entries().take(k + 1))
                },
            }
        }),
{
    let all = rep.entries();
    let front = all.drop_last();
    assert(all.take(all.len() as int) =~= all);
    assert(front.take(k) =~= all.take(k));
    assert(front.take(k + 1) =~= all.take(k + 1));
    lemma_walk_halts(
        Cursor { number: rep.first_number(), time: 0, found: None },
        front,
        k,
        wanted,
    );
}

/// Where the walk for a segment that the timeline does not count stays in range, every
/// number and every end of the timeline does, and the other way round.
pub proof fn law_fits_means_in_range(rep: Representation, wanted: u32)
    requires
        !(rep.first_number() <= wanted < rep.first_number() + total_count(rep.entries())),
    ensures
        rep.fits(wanted) <==> forall|k: int|
            0 <= k <= rep.entries().len() ==> rep.first_number() + total_count(
                #[trigger] rep.entries().take(k),
            ) <= u32::MAX && end_of(rep.entries().take(k)) <= u64::MAX,
{
    let all = rep.entries();
    let start = Cursor { number: rep.first_number(), time: 0, found: None };
    assert(all.take(all.len() as int) =~= all);
    assert forall|k: int| 0 <= k <= all.len() implies (#[trigger] rep.walk(k, wanted)) == (Cursor {
        number: rep.first_number() + total_count(all.take(k)),
        time: end_of(all.take(k)),
        found: None,
    }) by {
        if k < all.len() {
            lemma_take_counts(all, k);
        }
        lemma_walk_time(start, all.take(k), wanted);
    }
    if rep.fits(wanted) {
        assert forall|k: int| 0 <= k <= all.len() implies rep.first_number() + total_count(
            #[trigger] all.take(k),
        ) <= u32::MAX && end_of(all.take(k)) <= u64::MAX by {
            assert(rep.walk(k, wanted).fits());
        }
    }
}

/// A timeline whose numbers and ends are all in range can be walked for any segment.
pub proof fn law_timeline_in_range_fits(rep: Representation, wanted: u32)
    requires
        forall|k: int|
            0 <= k <= rep.entries().len() ==> rep.first_number() + total_count(
                #[trigger] rep.entries().take(k),
            ) <= u32::MAX && end_of(rep.entries().take(k)) <= u64::MAX,
    ensures
        rep.fits(wanted),
{
    let all = rep.entries();
    let start = Cursor { number: rep.first_number(), time: 0, found: None };
    assert forall|k: int| 0 <= k <= all.len() implies (#[trigger] rep.walk(k, wanted)).fits() by {
        let part = all.take(k);
        assert(rep.first_number() + total_count(all.take(k)) <= u32::MAX);
        if rep.first_number() <= wanted < rep.first_number() + total_count(part) {
            let j = lemma_counting_entry(part, rep.first_number(), wanted);
            lemma_walk_halts(start, part, j, wanted);
            assert(part.take(j) =~= all.take(j));
            assert(part.take(j + 1) =~= all.take(j + 1));
        } else {
            lemma_walk_time(start, part, wanted);
        }
    }
}

proof fn lemma_counting_entry(entries: Seq<SegmentEntry>, first: nat, wanted: u32) -> (j: int)
    requires
        first <= wanted < first + total_count(entries),
    ensures
        0 <= j < entries.len(),
        first + total_count(entries.take(j)) <= wanted,
        wanted < first + total_count(entries.take(j)) + entries[j].count(),
    decreases entries.len(),
{
    let front = entries.drop_last();
    if wanted < first + total_count(front) {
        let j = lemma_counting_entry(front, first, wanted);
        assert(front.take(j) =~= entries.take(j));
        j
    } else {
        assert(entries.take(entries.len() - 1) =~= front);
        entries.len() - 1
    }
}

proof fn lemma_last_timing(reps: Seq<Representation>, k: int, id: u32, wanted: u32)
    requires
        0 <= k < reps.len(),
        reps[k].id == id,
        reps[k].timing(wanted) is Some,
        forall|j: int|
            k < j < reps.len() && (#[trigger] reps[j]).id == id ==> reps[j].timing(wanted) is None,
    ensures
        last_timing(reps, id, wanted) == reps[k].timing(wanted),
    decreases reps.len(),
{
    if k < reps.len() - 1 {
        assert(reps.last() == reps[reps.len() - 1]);
        lemma_last_timing(reps.drop_last(), k, id, wanted);
    }
}

proof fn lemma_no_timing(reps: Seq<Representation>, id: u32, wanted: u32)
    ensures
        last_timing(reps, id, wanted) is None <==> forall|j: int|
            0 <= j < reps.len() && (#[trigger] reps[j]).id == id ==> reps[j].timing(wanted) is None,
    decreases reps.len(),
{
    if reps.len() > 0 {
        let front = reps.drop_last();
        lemma_no_timing(front, id, wanted);
        assert(reps.last() == reps[reps.len() - 1]);
        if last_timing(reps, id, wanted) is None {
            assert forall|j: int| 0 <= j < reps.len() && (#[trigger] reps[j]).id == id implies reps[j].timing(
                wanted,
            ) is None by {
                if j < front.len() {
                    assert(front[j] == reps[j]);
                }
            }
        } else if last_timing(front, id, wanted) is Some {
            let j = choose|j: int|
                0 <= j < front.len() && (#[trigger] front[j]).id == id && front[j].timing(
                    wanted,
                ) is Some;
            assert(reps[j] == front[j]);
        }
    }
}

proof fn lemma_last_timing_in(sets: Seq<AdaptationSet>, i: int, id: u32, wanted: u32)
    requires
        0 <= i < sets.len(),
        last_timing(sets[i].representations@, id, wanted) is Some,
        forall|j: int|
            i < j < sets.len() ==> last_timing(
                (#[trigger] sets[j]).representations@,
                id,
                wanted,
            ) is None,
    ensures
        last_timing_in(sets, id, wanted) == last_timing(sets[i].representations@, id, wanted),
    decreases sets.len(),
{
    if i < sets.len() - 1 {
        assert(sets.last() == sets[sets.len() - 1]);
        lemma_last_timing_in(sets.drop_last(), i, id, wanted);
    }
}

/// The timing of a segment is that of the last representation, in the order of the
/// manifest, that has the id and times the segment: the representation `k` of the set `i`,
/// where no later one does.
pub proof fn law_last_representation_wins(mpd: Mpd, i: int, k: int, id: u32, wanted: u32)
    requires
        0 <= i < mpd.period.adaptation_sets@.len(),
        0 <= k < mpd.period.adaptation_sets@[i].representations@.len(),
        mpd.period.adaptation_sets@[i].representations@[k].id == id,
        mpd.period.adaptation_sets@[i].representations@[k].timing(wanted) is Some,
        forall|j: int|
            k < j < mpd.period.adaptation_sets@[i].representations@.len() && (
            #[trigger] mpd.period.adaptation_sets@[i].representations@[j]).id == id
                ==> mpd.period.adaptation_sets@[i].representations@[j].timing(wanted) is None,
        forall|h: int, j: int|
            i < h < mpd.period.adaptation_sets@.len() && 0 <= j
                < mpd.period.adaptation_sets@[h].representations@.len() && (
            #[trigger] mpd.period.adaptation_sets@[h].representations@[j]).id == id
                ==> mpd.period.adaptation_sets@[h].representations@[j].timing(wanted) is None,
    ensures
        mpd.timing(id, wanted) == mpd.period.adaptation_sets@[i].representations@[k].timing(wanted),
{
    let sets = mpd.period.adaptation_sets@;
    lemma_last_timing(sets[i].representations@, k, id, wanted);
    assert forall|h: int| i < h < sets.len() implies last_timing(
        (#[trigger] sets[h]).representations@,
        id,
        wanted,
    ) is None by {
        lemma_no_timing(sets[h].representations@, id, wanted);
    }
    lemma_last_timing_in(sets, i, id, wanted);
}

/// The manifest does not time a segment exactly if no representation with the id does.
pub proof fn law_untimed_iff_no_representation_times(mpd: Mpd, id: u32, wanted: u32)
    ensures
        mpd.timing(id, wanted) is None <==> forall|i: int, k: int|
            0 <= i < mpd.period.adaptation_sets@.len() && 0 <= k
                < mpd.period.adaptation_sets@[i].representations@.len() && (
            #[trigger] mpd.period.adaptation_sets@[i].representations@[k]).id == id
                ==> mpd.period.adaptation_sets@[i].representations@[k].timing(wanted) is None,
{
    let sets = mpd.period.adaptation_sets@;
    lemma_untimed_in(sets, id, wanted);
    assert forall|i: int| 0 <= i < sets.len() implies (last_timing(
        (#[trigger] sets[i]).representations@,
        id,
        wanted,
    ) is None <==> forall|k: int|
        0 <= k < sets[i].representations@.len() && (#[trigger] sets[i].representations@[k]).id == id
            ==> sets[i].representations@[k].timing(wanted) is None) by {
        lemma_no_timing(sets[i].representations@, id, wanted);
    }
}

proof fn lemma_untimed_in(sets: Seq<AdaptationSet>, id: u32, wanted: u32)
    ensures
        last_timing_in(sets, id, wanted) is None <==> forall|i: int|
            0 <= i < sets.len() ==> last_timing(
                (#[trigger] sets[i]).representations@,
                id,
                wanted,
            ) is None,
    decreases sets.len(),
{
    if sets.len() > 0 {
        let front = sets.drop_last();
        lemma_untimed_in(front, id, wanted);
        assert(sets.last() == sets[sets.len() - 1]);
        if last_timing_in(sets, id, wanted) is None {
            assert forall|i: int| 0 <= i < sets.len() implies last_timing(
                (#[trigger] sets[i]).representations@,
                id,
                wanted,
            ) is None by {
                if i < front.len() {
                    assert(front[i] == sets[i]);
                }
            }
        } else if last_timing_in(front, id, wanted) is Some {
            let i = choose|i: int|
                0 <= i < front.len() && last_timing(
                    (#[trigger] front[i]).representations@,
                    id,
                    wanted,
                ) is Some;
            assert(sets[i] == front[i]);
        }
    }
}

/// A segment has timings exactly if the representations zero and one both time it; the
/// first is the video's and the second the audio's.
pub proof fn law_timings_are_of_video_and_audio(mpd: Mpd, wanted: u32)
    ensures
        mpd.timings(wanted) is Some <==> mpd.timing(0, wanted) is Some && mpd.timing(
            1,
            wanted,
        ) is Some,
        mpd.timings(wanted) matches Some((video, audio)) ==> mpd.timing(0, wanted) == Some(video)
            && mpd.timing(1, wanted) == Some(audio),
{
}

/// A manifest can be timed exactly if each of its representations can.
pub proof fn law_manifest_fits_iff_representations_do(mpd: Mpd, wanted: u32)
    ensures
        mpd.fits(wanted) <==> forall|i: int, k: int|
            0 <= i < mpd.period.adaptation_sets@.len() && 0 <= k
                < mpd.period.adaptation_sets@[i].representations@.len() ==> (
            #[trigger] mpd.period.adaptation_sets@[i].representations@[k]).fits(wanted),
{
    let sets = mpd.period.adaptation_sets@;
    if mpd.fits(wanted) {
        assert forall|i: int, k: int|
            0 <= i < sets.len() && 0 <= k < sets[i].representations@.len() implies (
        #[trigger] sets[i].representations@[k]).fits(wanted) by {
            assert(sets[i].fits(wanted));
        }
    } else {
        let i = choose|i: int| 0 <= i < sets.len() && !(#[trigger] sets[i]).fits(wanted);
        let k = choose|k: int|
            0 <= k < sets[i].representations@.len() && !(
            #[trigger] sets[i].representations@[k]).fits(wanted);
        assert(!sets[i].representations@[k].fits(wanted));
    }
}

/// White space in front of a text does not matter for what is left of it, and what is left
/// does not begin with any.
pub proof fn law_trimmed_begins_with_no_space(s: Seq<char>, c: char)
    ensures
        trimmed(s).len() > 0 ==> !is_white_space(trimmed(s)[0]),
        is_white_space(c) ==> trimmed(seq![c] + s) == trimmed(s),
        !is_white_space(c) ==> trimmed(seq![c] + s) == seq![c] + s,
    decreases s.len(),
{
    assert((seq![c] + s).skip(1) =~= s);
    if s.len() > 0 {
        law_trimmed_begins_with_no_space(s.skip(1), c);
    }
}

/// A timeline can be walked for a segment that its entry `k` counts exactly if the numbers
/// and the ends before that entry are in range and, where the segment is not the first of
/// the entry, the end of the entry too. What comes after does not matter.
pub proof fn law_fits_up_to_segment(rep: Representation, k: int, wanted: u32)
    requires
        0 <= k < rep.entries().len(),
        rep.first_number() + total_count(rep.entries().take(k)) <= wanted,
        wanted < rep.first_number() + total_count(rep.entries().take(k))
            + rep.entries()[k].count(),
    ensures
        rep.fits(wanted) <==> (forall|j: int|
            0 <= j <= k ==> end_of(#[trigger] rep.entries().take(j)) <= u64::MAX) && (wanted
            > rep.first_number() + total_count(rep.entries().take(k)) ==> end_of(
            rep.entries().take(k + 1),
        ) <= u64::MAX),
{
    let all = rep.entries();
    let first = rep.first_number();
    let start = Cursor { number: first, time: 0, found: None };
    let is_first = wanted == first + total_count(all.take(k));
    assert forall|j: int| 0 <= j <= k implies (#[trigger] rep.walk(j, wanted)) == (Cursor {
        number: first + total_count(all.take(j)),
        time: end_of(all.take(j)),
        found: None,
    }) && first + total_count(all.take(j)) <= wanted by {
        assert(all.take(k).take(j) =~= all.take(j));
        if j < k {
            lemma_take_counts(all.take(k), j);
        }
        lemma_walk_time(start, all.take(j), wanted);
    }
    assert forall|j: int| k < j <= all.len() implies (#[trigger] rep.walk(j, wanted)).number
        == wanted && rep.walk(j, wanted).time == halt(all, k, is_first) by {
        let part = all.take(j);
        assert(part.take(k) =~= all.take(k));
        assert(part.take(k + 1) =~= all.take(k + 1));
        lemma_walk_halts(start, part, k, wanted);
    }
    if rep.fits(wanted) {
        assert forall|j: int| 0 <= j <= k implies end_of(#[trigger] all.take(j)) <= u64::MAX by {
            assert(rep.walk(j, wanted).fits());
        }
        assert(rep.walk(k + 1, wanted).fits());
    } else {
        let j = choose|j: int| 0 <= j <= all.len() && !(#[trigger] rep.walk(j, wanted)).fits();
        if j <= k {
            assert(end_of(all.take(j)) > u64::MAX);
        } else if is_first {
            assert(end_of(all.take(k)) > u64::MAX);
        }
    }
}

} // verus!

//! Reading a presentation from the directory that an encoder writes to.
//!
//! The reader passes over the directory again and again. In each pass it makes sure of
//! the initialization segments, the manifest and the segments, and then sends a packet
//! for each segment that it has not taken lately. What it does is a sequence of
//! actions, each chosen by [`DashReader::next`] from the outcome of the one before.

use vstd::prelude::*;
use vstd::utf8::{decode_utf8, valid_utf8};
use bytes::Bytes;
use crate::mpd::{extract_timings_from_mpd, timings_fit, Mpd};
use crate::packet::{bytes_as_slice, bytes_clone, contents, MediaPacket, WebTransportMediaPacket};
use crate::seen::{remembered, SeenSegments, MAX_SEEN};
use crate::segments::{
    audio_segment_name, common_segments, find_common_segments, segment_name, video_segment_name,
    AUDIO_PREFIX, VIDEO_PREFIX,
};

verus! {

/// The file of the audio initialization segment.
pub const AUDIO_INIT_FILE: &'static str = "init-1.mp4";

/// The file of the video initialization segment.
pub const VIDEO_INIT_FILE: &'static str = "init-0.mp4";

/// The file of the manifest.
pub const MPD_FILE: &'static str = "stream.mpd";

/// How long the reader waits between passes, in seconds.
pub const PASS_SECONDS: u64 = 1;

/// What the reader is waiting for.
#[derive(Debug, Clone, Copy, PartialEq, Eq, Structural)]
pub enum DashPhase {
    /// The next pass.
    Waiting,
    /// The number of receivers.
    Receivers,
    /// Whether the initialization segments are there.
    InitFiles,
    /// The audio initialization segment.
    AudioInit,
    /// The video initialization segment.
    VideoInit,
    /// Whether the manifest is there.
    MpdFile,
    /// The files of the directory, to see whether there is a new segment.
    FirstListing,
    /// Whether both files of the new segment are there.
    Pair,
    /// The manifest.
    MpdData,
    /// The files of the directory, to send the new segments.
    SecondListing,
    /// The audio of the segment.
    AudioData,
    /// The video of the segment.
    VideoData,
    /// The manifest as it was parsed.
    Timing,
    /// The end of sending.
    Sending,
}

/// What happens to the reader.
#[derive(Debug)]
pub enum DashEvent {
    /// It is time for a pass.
    PassDue,
    /// So many receivers listen for packets.
    Receivers(usize),
    /// Whether each of two files is there.
    FilesFound(bool, bool),
    /// Whether a file is there.
    FileFound(bool),
    /// The contents of a file, or none where it could not be read.
    FileRead(Option<Bytes>),
    /// The names of the files, or none where they could not be read.
    Listed(Option<Vec<String>>),
    /// The manifest, or none where its text is not one.
    MpdParsed(Option<Mpd>),
    /// The packet was sent, or nobody received it.
    Sent,
}

/// What the reader does next.
#[derive(Debug)]
pub enum DashAction {
    /// Count the receivers.
    CountReceivers,
    /// Look for two files.
    FindFiles(String, String),
    /// Look for a file.
    FindFile(String),
    /// Read a file.
    ReadFile(String),
    /// List the names of the files.
    ListFiles,
    /// Parse the text of a manifest.
    ParseMpd(String),
    /// Send a packet.
    Send(WebTransportMediaPacket),
    /// Wait this many seconds for the next pass.
    Wait(u64),
}

/// What an action says.
pub enum DashStep {
    CountReceivers,
    FindFiles(Seq<char>, Seq<char>),
    FindFile(Seq<char>),
    ReadFile(Seq<char>),
    ListFiles,
    ParseMpd(Seq<char>),
    Send(MediaPacket),
    Wait(u64),
}

impl View for DashAction {
    type V = DashStep;

    open spec fn view(&self) -> DashStep {
        match self {
            DashAction::CountReceivers => DashStep::CountReceivers,
            DashAction::FindFiles(a, b) => DashStep::FindFiles(a@, b@),
            DashAction::FindFile(a) => DashStep::FindFile(a@),
            DashAction::ReadFile(a) => DashStep::ReadFile(a@),
            DashAction::ListFiles => DashStep::ListFiles,
            DashAction::ParseMpd(text) => DashStep::ParseMpd(text@),
            DashAction::Send(packet) => DashStep::Send(packet@),
            DashAction::Wait(seconds) => DashStep::Wait(*seconds),
        }
    }
}

/// The bytes of a buffer that may be missing.
pub open spec fn option_contents(b: Option<Bytes>) -> Option<Seq<u8>> {
    match b {
        Some(bytes) => Some(contents(bytes)),
        None => None,
    }
}

/// What a reader knows.
#[verifier::ext_equal]
pub struct DashState {
    pub phase: DashPhase,
    pub audio_init: Option<Seq<u8>>,
    pub video_init: Option<Seq<u8>>,
    pub packet_id: u32,
    /// The segments taken lately, oldest first.
    pub seen: Seq<u32>,
    /// The manifest of the pass.
    pub mpd: Option<Seq<u8>>,
    /// The segments of the pass.
    pub numbers: Seq<u32>,
    /// Which of them comes next.
    pub next: nat,
    pub audio: Option<Seq<u8>>,
    pub video: Option<Seq<u8>>,
}

/// The first of `numbers`, from `from` on, that is not among `seen`.
pub open spec fn first_unseen(numbers: Seq<u32>, from: nat, seen: Seq<u32>) -> Option<nat>
    decreases numbers.len() - from,
{
    if from >= numbers.len() {
        None
    } else if !seen.contains(numbers[from as int]) {
        Some(from)
    } else {
        first_unseen(numbers, from + 1, seen)
    }
}

impl DashState {
    /// A reader before its first pass.
    pub open spec fn initial() -> DashState {
        DashState {
            phase: DashPhase::Waiting,
            audio_init: None,
            video_init: None,
            packet_id: 0,
            seen: Seq::empty(),
            mpd: None,
            numbers: Seq::empty(),
            next: 0,
            audio: None,
            video: None,
        }
    }

    /// The initialization segments are known.
    pub open spec fn is_initialized(self) -> bool {
        self.audio_init is Some && self.video_init is Some
    }

    /// The reader is busy with a segment of the pass.
    pub open spec fn has_segment(self) -> bool {
        self.phase == DashPhase::AudioData || self.phase == DashPhase::VideoData || self.phase
            == DashPhase::Timing || self.phase == DashPhase::Sending
    }

    /// The segment that the reader is busy with.
    pub open spec fn segment(self) -> u32 {
        self.numbers[self.next - 1]
    }

    /// What the phases have gathered is there in those that come after, and no more than
    /// the last segments are remembered, none twice.
    pub open spec fn wf(self) -> bool {
        &&& self.seen.no_duplicates()
        &&& self.seen.len() <= MAX_SEEN
        &&& self.phase == DashPhase::MpdFile || self.phase == DashPhase::FirstListing || self.phase
            == DashPhase::Pair || self.phase == DashPhase::MpdData || self.phase
            == DashPhase::SecondListing || self.has_segment() ==> self.is_initialized()
        &&& self.phase == DashPhase::VideoInit ==> self.audio_init is Some
        &&& self.phase == DashPhase::SecondListing || self.has_segment() ==> self.mpd is Some
        &&& self.has_segment() ==> 0 < self.next <= self.numbers.len()
        &&& self.phase == DashPhase::VideoData || self.phase == DashPhase::Timing
            ==> self.audio is Some
        &&& self.phase == DashPhase::Timing ==> self.video is Some
    }

    /// The event can happen in the reader's phase: it is the outcome of the action. The
    /// manifest times the segment within the range of its numbers, and there is an id for
    /// the packet after the one that was sent.
    pub open spec fn admits(self, event: DashEvent) -> bool {
        match event {
            DashEvent::PassDue => self.phase == DashPhase::Waiting,
            DashEvent::Receivers(_) => self.phase == DashPhase::Receivers,
            DashEvent::FilesFound(_, _) => self.phase == DashPhase::InitFiles || self.phase
                == DashPhase::Pair,
            DashEvent::FileFound(_) => self.phase == DashPhase::MpdFile,
            DashEvent::FileRead(_) => self.phase == DashPhase::AudioInit || self.phase
                == DashPhase::VideoInit || self.phase == DashPhase::MpdData || self.phase
                == DashPhase::AudioData || self.phase == DashPhase::VideoData,
            DashEvent::Listed(_) => self.phase == DashPhase::FirstListing || self.phase
                == DashPhase::SecondListing,
            DashEvent::MpdParsed(parsed) => self.phase == DashPhase::Timing && (
            parsed matches Some(mpd) ==> mpd.fits(self.segment())),
            DashEvent::Sent => self.phase == DashPhase::Sending && self.packet_id < u32::MAX,
        }
    }

    /// The pass is over.
    pub open spec fn wait(self) -> (DashState, DashStep) {
        (DashState { phase: DashPhase::Waiting, ..self }, DashStep::Wait(PASS_SECONDS))
    }

    /// The reader goes on to the next segment of the pass that it has not taken lately.
    pub open spec fn advance(self) -> (DashState, DashStep) {
        match first_unseen(self.numbers, self.next, self.seen) {
            None => self.wait(),
            Some(i) => (
                DashState {
                    phase: DashPhase::AudioData,
                    seen: remembered(self.seen, self.numbers[i as int]),
                    next: i + 1,
                    ..self
                },
                DashStep::ReadFile(segment_name(AUDIO_PREFIX@, self.numbers[i as int])),
            ),
        }
    }

    /// The packet of the segment. Where the manifest does not time the segment, the
    /// timestamp and the duration are zero.
    pub open spec fn packet(self, parsed: Option<Mpd>) -> MediaPacket {
        let timings = match parsed {
            Some(mpd) => mpd.timings(self.segment()),
            None => None,
        };
        let (timestamp, duration) = match timings {
            Some((video, audio)) => video,
            None => (0, 0),
        };
        MediaPacket {
            packet_id: self.packet_id,
            timestamp,
            duration,
            mpd: self.mpd->0,
            audio_init: self.audio_init->0,
            video_init: self.video_init->0,
            audio_data: self.audio->0,
            video_data: self.video->0,
        }
    }

    /// The reader after `event`, and what it does next.
    pub open spec fn step(self, event: DashEvent) -> (DashState, DashStep) {
        match event {
            DashEvent::PassDue => (
                DashState { phase: DashPhase::Receivers, ..self },
                DashStep::CountReceivers,
            ),
            DashEvent::Receivers(count) => if count == 0 {
                self.wait()
            } else {
                (
                    DashState { phase: DashPhase::InitFiles, ..self },
                    DashStep::FindFiles(AUDIO_INIT_FILE@, VIDEO_INIT_FILE@),
                )
            },
            DashEvent::FilesFound(audio, video) => if !audio || !video {
                self.wait()
            } else if self.phase == DashPhase::Pair {
                (DashState { phase: DashPhase::MpdData, ..self }, DashStep::ReadFile(MPD_FILE@))
            } else if self.is_initialized() {
                (DashState { phase: DashPhase::MpdFile, ..self }, DashStep::FindFile(MPD_FILE@))
            } else {
                (
                    DashState { phase: DashPhase::AudioInit, ..self },
                    DashStep::ReadFile(AUDIO_INIT_FILE@),
                )
            },
            DashEvent::FileFound(found) => if !found {
                self.wait()
            } else {
                (DashState { phase: DashPhase::FirstListing, ..self }, DashStep::ListFiles)
            },
            DashEvent::FileRead(None) => if self.has_segment() {
                self.advance()
            } else {
                self.wait()
            },
            DashEvent::FileRead(Some(data)) => self.step_read(contents(data)),
            DashEvent::Listed(None) => self.wait(),
            DashEvent::Listed(Some(names)) => if self.phase == DashPhase::FirstListing {
                match first_unseen(common_segments(names@), 0, self.seen) {
                    None => self.wait(),
                    Some(i) => {
                        let n = common_segments(names@)[i as int];
                        (
                            DashState { phase: DashPhase::Pair, ..self },
                            DashStep::FindFiles(
                                segment_name(AUDIO_PREFIX@, n),
                                segment_name(VIDEO_PREFIX@, n),
                            ),
                        )
                    },
                }
            } else {
                (DashState { numbers: common_segments(names@), next: 0, ..self }).advance()
            },
            DashEvent::MpdParsed(parsed) => (
                DashState { phase: DashPhase::Sending, ..self },
                DashStep::Send(self.packet(parsed)),
            ),
            DashEvent::Sent => (DashState {
                packet_id: (self.packet_id + 1) as u32,
                ..self
            }).advance(),
        }
    }

    /// The step with the contents of a file.
    pub open spec fn step_read(self, data: Seq<u8>) -> (DashState, DashStep) {
        match self.phase {
            DashPhase::AudioInit => (
                DashState { phase: DashPhase::VideoInit, audio_init: Some(data), ..self },
                DashStep::ReadFile(VIDEO_INIT_FILE@),
            ),
            DashPhase::VideoInit => (
                DashState { phase: DashPhase::MpdFile, video_init: Some(data), ..self },
                DashStep::FindFile(MPD_FILE@),
            ),
            DashPhase::MpdData => (
                DashState { phase: DashPhase::SecondListing, mpd: Some(data), ..self },
                DashStep::ListFiles,
            ),
            DashPhase::AudioData => (
                DashState { phase: DashPhase::VideoData, audio: Some(data), ..self },
                DashStep::ReadFile(segment_name(VIDEO_PREFIX@, self.segment())),
            ),
            _ => if valid_utf8(self.mpd->0) {
                (
                    DashState { phase: DashPhase::Timing, video: Some(data), ..self },
                    DashStep::ParseMpd(decode_utf8(self.mpd->0)),
                )
            } else {
                self.advance()
            },
        }
    }
}

/// `std::str::from_utf8`: the text that the bytes encode, or none where they are not
/// valid UTF-8.
#[verifier::external_body]
fn text_of(bytes: &[u8]) -> (r: Option<&str>)
    ensures
        match r {
            Some(text) => valid_utf8(bytes@) && text@ == decode_utf8(bytes@),
            None => !valid_utf8(bytes@),
        },
{
    std::str::from_utf8(bytes).ok()
}

/// The reader of a directory.
#[derive(Debug)]
pub struct DashReader {
    phase: DashPhase,
    audio_init: Option<Bytes>,
    video_init: Option<Bytes>,
    packet_id: u32,
    seen: SeenSegments,
    mpd: Option<Bytes>,
    numbers: Vec<u32>,
    next: usize,
    audio: Option<Bytes>,
    video: Option<Bytes>,
}

impl View for DashReader {
    type V = DashState;

    closed spec fn view(&self) -> DashState {
        DashState {
            phase: self.phase,
            audio_init: option_contents(self.audio_init),
            video_init: option_contents(self.video_init),
            packet_id: self.packet_id,
            seen: self.seen@,
            mpd: option_contents(self.mpd),
            numbers: self.numbers@,
            next: self.next as nat,
            audio: option_contents(self.audio),
            video: option_contents(self.video),
        }
    }
}

/// Where the first of `numbers` stands, from `from` on, that is not among `seen`.
fn find_unseen(numbers: &Vec<u32>, from: usize, seen: &SeenSegments) -> (r: Option<usize>)
    requires
        seen.wf(),
    ensures
        match r {
            Some(i) => first_unseen(numbers@, from as nat, seen@) == Some(i as nat) && from <= i
                < numbers@.len() && !seen@.contains(numbers@[i as int]),
            None => first_unseen(numbers@, from as nat, seen@) is None,
        },
{
    let mut i: usize = from;
    while i < numbers.len()
        invariant
            from <= i,
            seen.wf(),
            first_unseen(numbers@, from as nat, seen@) == first_unseen(numbers@, i as nat, seen@),
        decreases numbers.len() - i,
    {
        if !seen.contains(numbers[i]) {
            return Some(i);
        }
        i = i + 1;
    }
    None
}

impl DashReader {
    /// The parts of the reader fit together.
    pub closed spec fn wf(&self) -> bool {
        self.seen.wf() && self@.wf()
    }

    /// A reader before its first pass.
    pub fn new() -> (r: Self)
        ensures
            r.wf(),
            r@ == DashState::initial(),
    {
        let r = DashReader {
            phase: DashPhase::Waiting,
            audio_init: None,
            video_init: None,
            packet_id: 0,
            seen: SeenSegments::new(),
            mpd: None,
            numbers: Vec::new(),
            next: 0,
            audio: None,
            video: None,
        };
        assert(r@ =~= DashState::initial());
        r
    }

    /// What the reader knows fits together.
    pub proof fn lemma_wf(&self)
        requires
            self.wf(),
        ensures
            self@.wf(),
    {
    }

    /// The id of the packet that is sent next.
    pub fn packet_id(&self) -> (id: u32)
        ensures
            id == self@.packet_id,
    {
        self.packet_id
    }

    /// Whether the manifest times the segment that the reader is busy with within the
    /// range of its numbers.
    pub fn can_time(&self, parsed: Option<&Mpd>) -> (r: bool)
        requires
            self.wf(),
            self@.has_segment(),
        ensures
            r == (parsed matches Some(mpd) ==> mpd.fits(self@.segment())),
    {
        timings_fit(parsed, self.numbers[self.next - 1])
    }

    /// The timings that the manifest gives the segment that the reader is busy with, video
    /// first.
    pub fn timings(&self, parsed: Option<&Mpd>) -> (r: Option<((u64, u32), (u64, u32))>)
        requires
            self.wf(),
            self@.has_segment(),
            parsed matches Some(mpd) ==> mpd.fits(self@.segment()),
        ensures
            r == match parsed {
                Some(mpd) => mpd.timings(self@.segment()),
                None => None,
            },
    {
        extract_timings_from_mpd(parsed, self.numbers[self.next - 1])
    }

    /// Ends the pass.
    fn wait(&mut self) -> (action: DashAction)
        requires
            old(self).wf(),
        ensures
            final(self).wf(),
            (final(self)@, action@) == old(self)@.wait(),
    {
        self.phase = DashPhase::Waiting;
        DashAction::Wait(PASS_SECONDS)
    }

    /// Goes on to the next segment of the pass that was not taken lately.
    fn advance(&mut self) -> (action: DashAction)
        requires
            old(self).seen.wf(),
            old(self)@.is_initialized(),
            old(self)@.mpd is Some,
        ensures
            final(self).wf(),
            (final(self)@, action@) == old(self)@.advance(),
    {
        proof {
            old(self).seen.lemma_bounded();
        }
        match find_unseen(&self.numbers, self.next, &self.seen) {
            None => {
                self.phase = DashPhase::Waiting;
                DashAction::Wait(PASS_SECONDS)
            },
            Some(i) => {
                let n: u32 = self.numbers[i];
                assert(i < self.numbers.len());
                self.seen.remember(n);
                proof {
                    self.seen.lemma_bounded();
                }
                self.next = i + 1;
                self.phase = DashPhase::AudioData;
                DashAction::ReadFile(audio_segment_name(n))
            },
        }
    }

    /// The packet of the segment that the reader is busy with.
    fn packet(&self, parsed: Option<&Mpd>) -> (packet: WebTransportMediaPacket)
        requires
            self.wf(),
            self@.phase == DashPhase::Timing,
            parsed matches Some(mpd) ==> mpd.fits(self@.segment()),
        ensures
            packet@ == self@.packet(
                match parsed {
                    Some(mpd) => Some(*mpd),
                    None => None,
                },
            ),
    {
        let timings = self.timings(parsed);
        let (timestamp, duration): (u64, u32) = match timings {
            Some((video, _)) => video,
            None => (0, 0),
        };
        WebTransportMediaPacket {
            packet_id: self.packet_id,
            timestamp,
            duration,
            mpd: bytes_clone(self.mpd.as_ref().unwrap()),
            audio_init: bytes_clone(self.audio_init.as_ref().unwrap()),
            video_init: bytes_clone(self.video_init.as_ref().unwrap()),
            audio_data: bytes_clone(self.audio.as_ref().unwrap()),
            video_data: bytes_clone(self.video.as_ref().unwrap()),
        }
    }

    /// Goes on with the contents of a file.
    fn file_read(&mut self, data: Bytes) -> (action: DashAction)
        requires
            old(self).wf(),
            old(self)@.phase == DashPhase::AudioInit || old(self)@.phase == DashPhase::VideoInit
                || old(self)@.phase == DashPhase::MpdData || old(self)@.phase
                == DashPhase::AudioData || old(self)@.phase == DashPhase::VideoData,
        ensures
            final(self).wf(),
            (final(self)@, action@) == old(self)@.step_read(contents(data)),
    {
        match self.phase {
            DashPhase::AudioInit => {
                self.audio_init = Some(data);
                self.phase = DashPhase::VideoInit;
                DashAction::ReadFile(VIDEO_INIT_FILE.to_owned())
            },
            DashPhase::VideoInit => {
                self.video_init = Some(data);
                self.phase = DashPhase::MpdFile;
                DashAction::FindFile(MPD_FILE.to_owned())
            },
            DashPhase::MpdData => {
                self.mpd = Some(data);
                self.phase = DashPhase::SecondListing;
                DashAction::ListFiles
            },
            DashPhase::AudioData => {
                self.audio = Some(data);
                self.phase = DashPhase::VideoData;
                DashAction::ReadFile(video_segment_name(self.numbers[self.next - 1]))
            },
            _ => {
                let text: Option<String> = match text_of(
                    bytes_as_slice(self.mpd.as_ref().unwrap()),
                ) {
                    Some(text) => Some(text.to_owned()),
                    None => None,
                };
                match text {
                    Some(text) => {
                        self.video = Some(data);
                        self.phase = DashPhase::Timing;
                        DashAction::ParseMpd(text)
                    },
                    None => self.advance(),
                }
            },
        }
    }

    /// Takes the reader from the outcome of one action to the next action.
    pub fn next(&mut self, event: DashEvent) -> (action: DashAction)
        requires
            old(self).wf(),
            old(self)@.admits(event),
        ensures
            final(self).wf(),
            (final(self)@, action@) == old(self)@.step(event),
    {
        match event {
            DashEvent::PassDue => {
                self.phase = DashPhase::Receivers;
                DashAction::CountReceivers
            },
            DashEvent::Receivers(count) => {
                if count == 0 {
                    self.wait()
                } else {
                    self.phase = DashPhase::InitFiles;
                    DashAction::FindFiles(AUDIO_INIT_FILE.to_owned(), VIDEO_INIT_FILE.to_owned())
                }
            },
            DashEvent::FilesFound(audio, video) => {
                if !audio || !video {
                    self.wait()
                } else if self.phase == DashPhase::Pair {
                    self.phase = DashPhase::MpdData;
                    DashAction::ReadFile(MPD_FILE.to_owned())
                } else if self.audio_init.is_some() && self.video_init.is_some() {
                    self.phase = DashPhase::MpdFile;
                    DashAction::FindFile(MPD_FILE.to_owned())
                } else {
                    self.phase = DashPhase::AudioInit;
                    DashAction::ReadFile(AUDIO_INIT_FILE.to_owned())
                }
            },
            DashEvent::FileFound(found) => {
                if !found {
                    self.wait()
                } else {
                    self.phase = DashPhase::FirstListing;
                    DashAction::ListFiles
                }
            },
            DashEvent::FileRead(None) => {
                if self.phase == DashPhase::AudioData || self.phase == DashPhase::VideoData {
                    self.advance()
                } else {
                    self.wait()
                }
            },
            DashEvent::FileRead(Some(data)) => self.file_read(data),
            DashEvent::Listed(None) => self.wait(),
            DashEvent::Listed(Some(names)) => {
                let common: Vec<u32> = find_common_segments(&names);
                if self.phase == DashPhase::FirstListing {
                    match find_unseen(&common, 0, &self.seen) {
                        None => self.wait(),
                        Some(i) => {
                            self.phase = DashPhase::Pair;
                            DashAction::FindFiles(
                                audio_segment_name(common[i]),
                                video_segment_name(common[i]),
                            )
                        },
                    }
                } else {
                    self.numbers = common;
                    self.next = 0;
                    self.advance()
                }
            },
            DashEvent::MpdParsed(parsed) => {
                let packet: WebTransportMediaPacket = self.packet(parsed.as_ref());
                self.phase = DashPhase::Sending;
                DashAction::Send(packet)
            },
            DashEvent::Sent => {
                self.packet_id = self.packet_id + 1;
                self.advance()
            },
        }
    }
}

impl DashState {
    /// The reader after `events`.
    pub open spec fn after(self, events: Seq<DashEvent>) -> DashState
        decreases events.len(),
    {
        if events.len() == 0 {
            self
        } else {
            self.after(events.drop_last()).step(events.last()).0
        }
    }

    /// Each of `events` can happen after those before it.
    pub open spec fn admits_all(self, events: Seq<DashEvent>) -> bool
        decreases events.len(),
    {
        events.len() > 0 ==> self.admits_all(events.drop_last()) && self.after(
            events.drop_last(),
        ).admits(events.last())
    }

    /// The packets that are sent in the course of `events`.
    pub open spec fn sent(self, events: Seq<DashEvent>) -> Seq<MediaPacket>
        decreases events.len(),
    {
        if events.len() == 0 {
            Seq::empty()
        } else {
            let before = self.sent(events.drop_last());
            match self.after(events.drop_last()).step(events.last()).1 {
                DashStep::Send(packet) => before.push(packet),
                _ => before,
            }
        }
    }

    /// The segments that are taken in the course of `events`.
    pub open spec fn taken(self, events: Seq<DashEvent>) -> Seq<u32>
        decreases events.len(),
    {
        if events.len() == 0 {
            Seq::empty()
        } else {
            let before = self.taken(events.drop_last());
            let now = self.after(events);
            if now.phase == DashPhase::AudioData {
                before.push(now.segment())
            } else {
                before
            }
        }
    }
}

proof fn lemma_first_unseen(numbers: Seq<u32>, from: nat, seen: Seq<u32>)
    ensures
        match first_unseen(numbers, from, seen) {
            Some(i) => from <= i < numbers.len() && !seen.contains(numbers[i as int]) && forall|
                k: int,
            |
                from <= k < i ==> seen.contains(#[trigger] numbers[k]),
            None => forall|k: int|
                from <= k < numbers.len() ==> seen.contains(#[trigger] numbers[k]),
        },
    decreases numbers.len() - from,
{
    if from < numbers.len() && seen.contains(numbers[from as int]) {
        lemma_first_unseen(numbers, from + 1, seen);
    }
}

proof fn lemma_remembered(seen: Seq<u32>, n: u32)
    requires
        seen.no_duplicates(),
        seen.len() <= MAX_SEEN,
        !seen.contains(n),
    ensures
        remembered(seen, n).no_duplicates(),
        remembered(seen, n).len() <= MAX_SEEN,
{
    assert(forall|i: int| 0 <= i < seen.len() ==> seen[i] != n);
}

proof fn lemma_advance(s: DashState)
    requires
        s.seen.no_duplicates(),
        s.seen.len() <= MAX_SEEN,
        s.is_initialized(),
        s.mpd is Some,
    ensures
        ({
            let (after, step) = s.advance();
            &&& after.wf()
            &&& step !is Send
            &&& after.packet_id == s.packet_id
            &&& after.phase == DashPhase::Waiting || after.phase == DashPhase::AudioData
            &&& after.phase == DashPhase::Waiting ==> after.seen == s.seen
            &&& after.phase == DashPhase::AudioData ==> after.seen == remembered(
                s.seen,
                after.segment(),
            ) && !s.seen.contains(after.segment())
        }),
{
    lemma_first_unseen(s.numbers, s.next, s.seen);
    if let Some(i) = first_unseen(s.numbers, s.next, s.seen) {
        lemma_remembered(s.seen, s.numbers[i as int]);
    }
}

/// One step of the reader: it stays well-formed, a packet is sent under the current id,
/// which goes up when the packet is gone, and a segment is taken only if it is not among
/// those remembered, to which it is then added.
pub proof fn law_step(s: DashState, event: DashEvent)
    requires
        s.wf(),
        s.admits(event),
    ensures
        ({
            let (after, step) = s.step(event);
            &&& after.wf()
            &&& step matches DashStep::Send(packet) ==> packet.packet_id == s.packet_id
            &&& step is Send <==> after.phase == DashPhase::Sending
            &&& after.packet_id == s.packet_id + if s.phase == DashPhase::Sending {
                1int
            } else {
                0
            }
            &&& if after.phase == DashPhase::AudioData {
                after.seen == remembered(s.seen, after.segment()) && !s.seen.contains(
                    after.segment(),
                )
            } else {
                after.seen == s.seen
            }
        }),
{
    match event {
        DashEvent::FileRead(_) => {
            if s.has_segment() {
                lemma_advance(s);
            }
        },
        DashEvent::Listed(Some(names)) => {
            if s.phase == DashPhase::SecondListing {
                lemma_advance(DashState { numbers: common_segments(names@), next: 0, ..s });
            }
        },
        DashEvent::Sent => {
            lemma_advance(DashState { packet_id: (s.packet_id + 1) as u32, ..s });
        },
        _ => {},
    }
}

proof fn lemma_course(events: Seq<DashEvent>)
    requires
        DashState::initial().admits_all(events),
    ensures
        ({
            let s = DashState::initial();
            let now = s.after(events);
            let taken = s.taken(events);
            &&& now.wf()
            &&& s.sent(events).len() == now.packet_id + if now.phase == DashPhase::Sending {
                1int
            } else {
                0
            }
            &&& forall|i: int|
                0 <= i < s.sent(events).len() ==> (#[trigger] s.sent(events)[i]).packet_id == i
            &&& now.seen == if taken.len() <= MAX_SEEN {
                taken
            } else {
                taken.skip(taken.len() - MAX_SEEN)
            }
            &&& forall|i: int, j: int|
                0 <= i < j < taken.len() && j - i <= MAX_SEEN ==> #[trigger] taken[i]
                    != #[trigger] taken[j]
        }),
    decreases events.len(),
{
    if events.len() > 0 {
        let s = DashState::initial();
        let front = events.drop_last();
        lemma_course(front);
        let before = s.after(front);
        let now = s.after(events);
        law_step(before, events.last());
        let old_taken = s.taken(front);
        let taken = s.taken(events);
        if now.phase == DashPhase::AudioData {
            let n = now.segment();
            assert(now.seen =~= if taken.len() <= MAX_SEEN {
                taken
            } else {
                taken.skip(taken.len() - MAX_SEEN)
            });
            assert forall|i: int, j: int|
                0 <= i < j < taken.len() && j - i <= MAX_SEEN implies #[trigger] taken[i]
                != #[trigger] taken[j] by {
                if j == old_taken.len() {
                    if old_taken.len() <= MAX_SEEN {
                        assert(before.seen[i] == old_taken[i]);
                    } else {
                        assert(before.seen[i - (old_taken.len() - MAX_SEEN)] == old_taken[i]);
                    }
                }
            }
        }
    }
}

/// The packets of a reader are numbered from zero on, in the order in which they are
/// sent.
pub proof fn law_packet_ids(events: Seq<DashEvent>, i: int)
    requires
        DashState::initial().admits_all(events),
        0 <= i < DashState::initial().sent(events).len(),
    ensures
        DashState::initial().sent(events)[i].packet_id == i,
{
    lemma_course(events);
}

/// A segment that has been taken is not taken again before ten others have been.
pub proof fn law_taken_once(events: Seq<DashEvent>, i: int, j: int)
    requires
        DashState::initial().admits_all(events),
        0 <= i < j < DashState::initial().taken(events).len(),
        DashState::initial().taken(events)[i] == DashState::initial().taken(events)[j],
    ensures
        j - i > MAX_SEEN,
{
    lemma_course(events);
}

/// A segment that is taken becomes one packet: its audio and then its video are read from
/// the files of the segment, the manifest of the pass is parsed, and the packet carries
/// what was read, with the time at which the manifest starts the segment.
pub proof fn law_segment_becomes_packet(
    s: DashState,
    audio: Bytes,
    video: Bytes,
    parsed: Option<Mpd>,
)
    requires
        s.wf(),
        s.phase == DashPhase::AudioData,
        valid_utf8(s.mpd->0),
    ensures
        ({
            let (s1, step1) = s.step(DashEvent::FileRead(Some(audio)));
            let (s2, step2) = s1.step(DashEvent::FileRead(Some(video)));
            let (s3, step3) = s2.step(DashEvent::MpdParsed(parsed));
            let timings = match parsed {
                Some(mpd) => mpd.timings(s.segment()),
                None => None,
            };
            &&& step1 == DashStep::ReadFile(segment_name(VIDEO_PREFIX@, s.segment()))
            &&& step2 == DashStep::ParseMpd(decode_utf8(s.mpd->0))
            &&& step3 matches DashStep::Send(packet) && {
                &&& packet.packet_id == s.packet_id
                &&& packet.audio_data == contents(audio)
                &&& packet.video_data == contents(video)
                &&& packet.mpd == s.mpd->0
                &&& packet.audio_init == s.audio_init->0
                &&& packet.video_init == s.video_init->0
                &&& timings matches Some((video_timing, _)) ==> (
                    packet.timestamp,
                    packet.duration,
                ) == video_timing
                &&& timings is None ==> packet.timestamp == 0 && packet.duration == 0
            }
            &&& s3.segment() == s.segment()
        }),
{
}

/// In a pass the reader takes segments from the listing of the pass, in its order, and it
/// leaves out only those that it remembers.
pub proof fn law_no_segment_is_left_out(s: DashState, event: DashEvent, k: int)
    requires
        s.wf(),
        s.admits(event),
        s.phase == DashPhase::SecondListing || s.has_segment(),
    ensures
        ({
            let after = s.step(event).0;
            let from = match event {
                DashEvent::Listed(_) => 0,
                _ => s.next,
            };
            &&& match event {
                DashEvent::Listed(Some(names)) => after.numbers == common_segments(names@),
                _ => after.numbers == s.numbers,
            }
            &&& after.phase == DashPhase::AudioData ==> {
                &&& from < after.next <= after.numbers.len()
                &&& from <= k < after.next - 1 ==> s.seen.contains(after.numbers[k])
            }
            &&& after.phase == DashPhase::Waiting && event != DashEvent::Listed(None) ==> (from
                <= k < after.numbers.len() ==> s.seen.contains(after.numbers[k]))
        }),
{
    match event {
        DashEvent::Listed(Some(names)) => {
            lemma_first_unseen(common_segments(names@), 0, s.seen);
        },
        _ => {
            lemma_first_unseen(s.numbers, s.next, s.seen);
        },
    }
}

/// The segments that a reader remembers are the last ten that it has taken, or all where
/// it has taken fewer, in the order in which it took them.
pub proof fn law_remembers_last_taken(events: Seq<DashEvent>)
    requires
        DashState::initial().admits_all(events),
    ensures
        ({
            let taken = DashState::initial().taken(events);
            DashState::initial().after(events).seen == if taken.len() <= MAX_SEEN {
                taken
            } else {
                taken.skip(taken.len() - MAX_SEEN)
            }
        }),
{
    lemma_course(events);
}

/// Each of `numbers` from `from` on is among those remembered.
pub open spec fn nothing_left(numbers: Seq<u32>, from: nat, seen: Seq<u32>) -> bool {
    forall|k: int| from <= k < numbers.len() ==> seen.contains(#[trigger] numbers[k])
}

/// After the manifest has been read the reader holds exactly what was read, whatever it held
/// before, and lists the files.
pub proof fn law_manifest_is_read_anew(s: DashState, data: Bytes)
    requires
        s.phase == DashPhase::MpdData,
    ensures
        s.step(DashEvent::FileRead(Some(data))).0.mpd == Some(contents(data)),
        s.step(DashEvent::FileRead(Some(data))).0.phase == DashPhase::SecondListing,
        s.step(DashEvent::FileRead(Some(data))).1 == DashStep::ListFiles,
{
}

/// The pass ends, and the reader waits a second for the next, exactly where something is
/// missing: receivers, a file that is looked for, a file or a listing that cannot be read,
/// or a segment that it does not remember.
pub proof fn law_pass_ends_where_something_is_missing(s: DashState, event: DashEvent)
    requires
        s.wf(),
        s.admits(event),
    ensures
        ({
            let (after, step) = s.step(event);
            let missing = match event {
                DashEvent::PassDue => false,
                DashEvent::Receivers(count) => count == 0,
                DashEvent::FilesFound(audio, video) => !audio || !video,
                DashEvent::FileFound(found) => !found,
                DashEvent::FileRead(None) => if s.has_segment() {
                    nothing_left(s.numbers, s.next, s.seen)
                } else {
                    true
                },
                DashEvent::FileRead(Some(_)) => s.phase == DashPhase::VideoData && !valid_utf8(
                    s.mpd->0,
                ) && nothing_left(s.numbers, s.next, s.seen),
                DashEvent::Listed(None) => true,
                DashEvent::Listed(Some(names)) => nothing_left(
                    common_segments(names@),
                    0,
                    s.seen,
                ),
                DashEvent::MpdParsed(_) => false,
                DashEvent::Sent => nothing_left(s.numbers, s.next, s.seen),
            };
            &&& step is Wait <==> missing
            &&& step is Wait <==> after.phase == DashPhase::Waiting
            &&& step matches DashStep::Wait(seconds) ==> seconds == 1
        }),
{
    match event {
        DashEvent::Listed(Some(names)) => {
            lemma_left(common_segments(names@), 0, s.seen);
        },
        _ => {
            lemma_left(s.numbers, s.next, s.seen);
        },
    }
}

proof fn lemma_left(numbers: Seq<u32>, from: nat, seen: Seq<u32>)
    ensures
        first_unseen(numbers, from, seen) is None <==> nothing_left(numbers, from, seen),
{
    lemma_first_unseen(numbers, from, seen);
    if let Some(i) = first_unseen(numbers, from, seen) {
        assert(!seen.contains(numbers[i as int]));
    }
}

/// The reader takes a segment exactly where there is one that it does not remember: from
/// the second listing of the pass, after a packet, and in place of a segment that cannot be
/// read or whose manifest is no text. It then reads the audio of the segment.
pub proof fn law_takes_what_is_left(s: DashState, event: DashEvent)
    requires
        s.wf(),
        s.admits(event),
    ensures
        ({
            let (after, step) = s.step(event);
            let takes = match event {
                DashEvent::FileRead(None) => s.has_segment() && !nothing_left(
                    s.numbers,
                    s.next,
                    s.seen,
                ),
                DashEvent::FileRead(Some(_)) => s.phase == DashPhase::VideoData && !valid_utf8(
                    s.mpd->0,
                ) && !nothing_left(s.numbers, s.next, s.seen),
                DashEvent::Listed(Some(names)) => s.phase == DashPhase::SecondListing
                    && !nothing_left(common_segments(names@), 0, s.seen),
                DashEvent::Sent => !nothing_left(s.numbers, s.next, s.seen),
                _ => false,
            };
            &&& after.phase == DashPhase::AudioData <==> takes
            &&& takes ==> {
                &&& 0 < after.next <= after.numbers.len()
                &&& step == DashStep::ReadFile(
                    segment_name("chunk-1-"@, after.numbers[after.next - 1]),
                )
                &&& !s.seen.contains(after.numbers[after.next - 1])
                &&& after.seen.last() == after.numbers[after.next - 1]
            }
        }),
{
    match event {
        DashEvent::Listed(Some(names)) => {
            lemma_left(common_segments(names@), 0, s.seen);
            lemma_first_unseen(common_segments(names@), 0, s.seen);
        },
        _ => {
            lemma_left(s.numbers, s.next, s.seen);
            lemma_first_unseen(s.numbers, s.next, s.seen);
        },
    }
}

/// In a pass the reader asks for the receivers, the initialization segments, the manifest
/// and a new segment, in this order, before it reads the manifest. It reads initialization
/// segments that it does not have.
pub proof fn law_pass_makes_sure(s: DashState, count: usize, names: Vec<String>)
    requires
        s.wf(),
        count > 0,
    ensures
        s.step(DashEvent::PassDue).1 == DashStep::CountReceivers,
        s.step(DashEvent::PassDue).0.phase == DashPhase::Receivers,
        s.step(DashEvent::Receivers(count)).1 == DashStep::FindFiles(
            "init-1.mp4"@,
            "init-0.mp4"@,
        ),
        s.step(DashEvent::Receivers(count)).0.phase == DashPhase::InitFiles,
        s.phase == DashPhase::InitFiles && s.is_initialized() ==> s.step(
            DashEvent::FilesFound(true, true),
        ).1 == DashStep::FindFile("stream.mpd"@) && s.step(
            DashEvent::FilesFound(true, true),
        ).0.phase == DashPhase::MpdFile,
        s.phase == DashPhase::InitFiles && !s.is_initialized() ==> s.step(
            DashEvent::FilesFound(true, true),
        ).1 == DashStep::ReadFile("init-1.mp4"@) && s.step(
            DashEvent::FilesFound(true, true),
        ).0.phase == DashPhase::AudioInit,
        s.is_initialized() <==> s.audio_init is Some && s.video_init is Some,
        s.step(DashEvent::FileFound(true)).1 == DashStep::ListFiles,
        s.step(DashEvent::FileFound(true)).0.phase == DashPhase::FirstListing,
        s.phase == DashPhase::FirstListing && !nothing_left(common_segments(names@), 0, s.seen)
            ==> s.step(DashEvent::Listed(Some(names))).0.phase == DashPhase::Pair,
        s.phase == DashPhase::Pair ==> s.step(DashEvent::FilesFound(true, true)).1
            == DashStep::ReadFile("stream.mpd"@) && s.step(
            DashEvent::FilesFound(true, true),
        ).0.phase == DashPhase::MpdData,
{
    lemma_left(common_segments(names@), 0, s.seen);
}

/// Where there is a new segment, the reader looks for the two files of the first: a number
/// of the listing that it does not remember, while it remembers all that come before.
pub proof fn law_looks_for_first_new_pair(s: DashState, names: Vec<String>) -> (i: int)
    requires
        s.phase == DashPhase::FirstListing,
        !nothing_left(common_segments(names@), 0, s.seen),
    ensures
        0 <= i < common_segments(names@).len(),
        !s.seen.contains(common_segments(names@)[i]),
        forall|k: int| 0 <= k < i ==> s.seen.contains(#[trigger] common_segments(names@)[k]),
        s.step(DashEvent::Listed(Some(names))).1 == DashStep::FindFiles(
            segment_name("chunk-1-"@, common_segments(names@)[i]),
            segment_name("chunk-0-"@, common_segments(names@)[i]),
        ),
{
    lemma_left(common_segments(names@), 0, s.seen);
    lemma_first_unseen(common_segments(names@), 0, s.seen);
    first_unseen(common_segments(names@), 0, s.seen)->0 as int
}

/// What is read is kept, and the next is read: the audio initialization segment, then the
/// video's, then the manifest is looked for; the audio of a segment, then its video, then
/// the manifest is parsed where it is text.
pub proof fn law_what_is_read_is_kept(s: DashState, data: Bytes)
    requires
        s.wf(),
    ensures
        ({
            let (after, step) = s.step(DashEvent::FileRead(Some(data)));
            &&& s.phase == DashPhase::AudioInit ==> after.audio_init == Some(contents(data)) && step
                == DashStep::ReadFile("init-0.mp4"@) && after.phase == DashPhase::VideoInit
            &&& s.phase == DashPhase::VideoInit ==> after.video_init == Some(contents(data)) && step
                == DashStep::FindFile("stream.mpd"@) && after.phase == DashPhase::MpdFile
            &&& s.phase == DashPhase::AudioData ==> after.audio == Some(contents(data)) && step
                == DashStep::ReadFile(segment_name("chunk-0-"@, s.numbers[s.next - 1]))
                && after.phase == DashPhase::VideoData
            &&& s.phase == DashPhase::VideoData && valid_utf8(s.mpd->0) ==> after.video == Some(
                contents(data),
            ) && step == DashStep::ParseMpd(decode_utf8(s.mpd->0)) && after.phase
                == DashPhase::Timing
        }),
{
}

/// With the parsed manifest the reader sends a packet of the current id, with the manifest,
/// the initialization segments and what it has read of the segment. The packet starts and
/// lasts as the manifest says of the video; where there is no manifest, or where it does
/// not time the segment for video and audio, both are zero.
pub proof fn law_packet_of_segment(s: DashState, parsed: Option<Mpd>)
    requires
        s.wf(),
        s.phase == DashPhase::Timing,
    ensures
        ({
            let (after, step) = s.step(DashEvent::MpdParsed(parsed));
            let timings = match parsed {
                Some(mpd) => mpd.timings(s.numbers[s.next - 1]),
                None => None,
            };
            &&& after.phase == DashPhase::Sending
            &&& step matches DashStep::Send(packet) && {
                &&& packet.packet_id == s.packet_id
                &&& Some(packet.mpd) == s.mpd
                &&& Some(packet.audio_init) == s.audio_init
                &&& Some(packet.video_init) == s.video_init
                &&& Some(packet.audio_data) == s.audio
                &&& Some(packet.video_data) == s.video
                &&& timings matches Some((video, _)) ==> packet.timestamp == video.0
                    && packet.duration == video.1
                &&& timings is None ==> packet.timestamp == 0 && packet.duration == 0
            }
        }),
{
}

/// A step changes only what it is about: the initialization segments, the manifest and the
/// segment when they are read, the numbers with a listing, what is remembered with a
/// segment that is taken, and the id with a packet that is gone.
pub proof fn law_step_leaves_the_rest(s: DashState, event: DashEvent)
    requires
        s.wf(),
        s.admits(event),
    ensures
        ({
            let after = s.step(event).0;
            let read = event matches DashEvent::FileRead(Some(_));
            &&& !(read && s.phase == DashPhase::AudioInit) ==> after.audio_init == s.audio_init
            &&& !(read && s.phase == DashPhase::VideoInit) ==> after.video_init == s.video_init
            &&& !(read && s.phase == DashPhase::MpdData) ==> after.mpd == s.mpd
            &&& !(read && s.phase == DashPhase::AudioData) ==> after.audio == s.audio
            &&& !(read && s.phase == DashPhase::VideoData) ==> after.video == s.video
            &&& !(event is Listed && s.phase == DashPhase::SecondListing) ==> after.numbers
                == s.numbers
            &&& after.phase != DashPhase::AudioData ==> after.seen == s.seen
            &&& !(event is Sent) ==> after.packet_id == s.packet_id
            &&& event is Sent ==> after.packet_id == s.packet_id + 1
        }),
{
}

/// Each event is expected in the phases whose action it answers.
pub proof fn law_expected_events(s: DashState, event: DashEvent)
    ensures
        ({
            let p = s.phase;
            let expected = match event {
                DashEvent::PassDue => p == DashPhase::Waiting,
                DashEvent::Receivers(_) => p == DashPhase::Receivers,
                DashEvent::FilesFound(_, _) => p == DashPhase::InitFiles || p == DashPhase::Pair,
                DashEvent::FileFound(_) => p == DashPhase::MpdFile,
                DashEvent::FileRead(_) => p == DashPhase::AudioInit || p == DashPhase::VideoInit || p
                    == DashPhase::MpdData || p == DashPhase::AudioData || p == DashPhase::VideoData,
                DashEvent::Listed(_) => p == DashPhase::FirstListing || p
                    == DashPhase::SecondListing,
                DashEvent::MpdParsed(_) => p == DashPhase::Timing,
                DashEvent::Sent => p == DashPhase::Sending && s.packet_id < u32::MAX,
            };
            &&& s.admits(event) ==> expected
            &&& expected && !(event is MpdParsed) ==> s.admits(event)
            &&& event matches DashEvent::MpdParsed(parsed) ==> expected && (
            parsed matches Some(mpd) ==> mpd.fits(s.numbers[s.next - 1])) ==> s.admits(event)
            &&& DashState::initial().phase == DashPhase::Waiting
            &&& DashState::initial().packet_id == 0
            &&& DashState::initial().seen.len() == 0
            &&& DashState::initial().audio_init is None
            &&& DashState::initial().video_init is None
        }),
{
}

impl DashState {
    /// The action that follows on `events`.
    pub open spec fn asks(self, events: Seq<DashEvent>) -> Option<DashStep> {
        if events.len() == 0 {
            None
        } else {
            Some(self.after(events.drop_last()).step(events.last()).1)
        }
    }

    /// What was last read from the file `name` in the course of `events`.
    pub open spec fn last_read(self, events: Seq<DashEvent>, name: Seq<char>) -> Option<Seq<u8>>
        decreases events.len(),
    {
        if events.len() == 0 {
            None
        } else {
            match events.last() {
                DashEvent::FileRead(Some(data)) => if self.asks(events.drop_last()) == Some(
                    DashStep::ReadFile(name),
                ) {
                    Some(contents(data))
                } else {
                    self.last_read(events.drop_last(), name)
                },
                _ => self.last_read(events.drop_last(), name),
            }
        }
    }

    /// What was last read from the file `name` in the pass that is under way after `events`.
    pub open spec fn read_in_pass(self, events: Seq<DashEvent>, name: Seq<char>) -> Option<Seq<u8>>
        decreases events.len(),
    {
        if events.len() == 0 {
            None
        } else {
            match events.last() {
                DashEvent::PassDue => None,
                DashEvent::FileRead(Some(data)) => if self.asks(events.drop_last()) == Some(
                    DashStep::ReadFile(name),
                ) {
                    Some(contents(data))
                } else {
                    self.read_in_pass(events.drop_last(), name)
                },
                _ => self.read_in_pass(events.drop_last(), name),
            }
        }
    }
}

/// No two of the files that the reader reads have the same name, except for two segments
/// of one number.
proof fn lemma_names_differ(n: u32, m: u32)
    ensures
        "stream.mpd"@ != "init-1.mp4"@,
        "stream.mpd"@ != "init-0.mp4"@,
        "init-1.mp4"@ != "init-0.mp4"@,
        segment_name("chunk-1-"@, n) != "stream.mpd"@,
        segment_name("chunk-1-"@, n) != "init-1.mp4"@,
        segment_name("chunk-1-"@, n) != "init-0.mp4"@,
        segment_name("chunk-0-"@, n) != "stream.mpd"@,
        segment_name("chunk-0-"@, n) != "init-1.mp4"@,
        segment_name("chunk-0-"@, n) != "init-0.mp4"@,
        segment_name("chunk-1-"@, n) != segment_name("chunk-0-"@, m),
{
    reveal_strlit("stream.mpd");
    reveal_strlit("init-1.mp4");
    reveal_strlit("init-0.mp4");
    reveal_strlit("chunk-1-");
    reveal_strlit("chunk-0-");
    let audio = segment_name("chunk-1-"@, n);
    let video = segment_name("chunk-0-"@, n);
    let other = segment_name("chunk-0-"@, m);
    assert("stream.mpd"@[0] == 's' && "init-1.mp4"@[0] == 'i' && "init-0.mp4"@[0] == 'i');
    assert("init-1.mp4"@[5] == '1' && "init-0.mp4"@[5] == '0');
    assert(audio[0] == 'c' && video[0] == 'c');
    assert(audio[6] == '1' && other[6] == '0');
}

proof fn lemma_reads(events: Seq<DashEvent>)
    requires
        DashState::initial().admits_all(events),
    ensures
        ({
            let s = DashState::initial();
            let now = s.after(events);
            let asks = s.asks(events);
            let n = now.segment();
            &&& now.wf()
            &&& now.phase == DashPhase::AudioInit ==> asks == Some(DashStep::ReadFile("init-1.mp4"@))
            &&& now.phase == DashPhase::VideoInit ==> asks == Some(DashStep::ReadFile("init-0.mp4"@))
            &&& now.phase == DashPhase::MpdData ==> asks == Some(DashStep::ReadFile("stream.mpd"@))
            &&& now.phase == DashPhase::AudioData ==> asks == Some(
                DashStep::ReadFile(segment_name("chunk-1-"@, n)),
            )
            &&& now.phase == DashPhase::VideoData ==> asks == Some(
                DashStep::ReadFile(segment_name("chunk-0-"@, n)),
            )
            &&& now.phase == DashPhase::Timing ==> asks == Some(
                DashStep::ParseMpd(decode_utf8(now.mpd->0)),
            )
            &&& now.audio_init == s.last_read(events, "init-1.mp4"@)
            &&& now.video_init == s.last_read(events, "init-0.mp4"@)
            &&& now.phase == DashPhase::SecondListing || now.has_segment() ==> now.mpd
                == s.read_in_pass(events, "stream.mpd"@)
            &&& now.phase == DashPhase::VideoData || now.phase == DashPhase::Timing ==> now.audio
                == s.read_in_pass(events, segment_name("chunk-1-"@, n))
            &&& now.phase == DashPhase::Timing ==> now.video == s.read_in_pass(
                events,
                segment_name("chunk-0-"@, n),
            )
        }),
    decreases events.len(),
{
    if events.len() > 0 {
        let s = DashState::initial();
        let front = events.drop_last();
        lemma_reads(front);
        let before = s.after(front);
        let event = events.last();
        law_step(before, event);
        law_takes_what_is_left(before, event);
        law_step_leaves_the_rest(before, event);
        lemma_names_differ(before.segment(), before.segment());
        lemma_names_differ(s.after(events).segment(), before.segment());
    }
}

/// A packet carries what was read from the files: the manifest and the two files of its
/// segment as they were read in the same pass, and the initialization segments as they were
/// last read. The manifest that times it is the one that it carries.
pub proof fn law_packet_carries_files(events: Seq<DashEvent>, packet: MediaPacket)
    requires
        DashState::initial().admits_all(events),
        DashState::initial().asks(events) == Some(DashStep::Send(packet)),
    ensures
        ({
            let s = DashState::initial();
            let n = s.after(events).segment();
            &&& Some(packet.mpd) == s.read_in_pass(events, "stream.mpd"@)
            &&& Some(packet.audio_data) == s.read_in_pass(events, segment_name("chunk-1-"@, n))
            &&& Some(packet.video_data) == s.read_in_pass(events, segment_name("chunk-0-"@, n))
            &&& Some(packet.audio_init) == s.last_read(events, "init-1.mp4"@)
            &&& Some(packet.video_init) == s.last_read(events, "init-0.mp4"@)
            &&& s.asks(events.drop_last()) == Some(DashStep::ParseMpd(decode_utf8(packet.mpd)))
        }),
{
    let s = DashState::initial();
    let front = events.drop_last();
    lemma_reads(front);
    let before = s.after(front);
    law_step(before, events.last());
    assert(s.after(events).phase == DashPhase::Sending);
    match events.last() {
        DashEvent::MpdParsed(parsed) => {
            law_packet_of_segment(before, parsed);
        },
        _ => {},
    }
}

/// What an action says is what it holds.
pub proof fn law_action_says_what_it_holds(action: DashAction)
    ensures
        match action {
            DashAction::CountReceivers => action@ == DashStep::CountReceivers,
            DashAction::FindFiles(a, b) => action@ == DashStep::FindFiles(a@, b@),
            DashAction::FindFile(a) => action@ == DashStep::FindFile(a@),
            DashAction::ReadFile(a) => action@ == DashStep::ReadFile(a@),
            DashAction::ListFiles => action@ == DashStep::ListFiles,
            DashAction::ParseMpd(text) => action@ == DashStep::ParseMpd(text@),
            DashAction::Send(packet) => action@ == DashStep::Send(packet@),
            DashAction::Wait(seconds) => action@ == DashStep::Wait(seconds),
        },
{
}

} // verus!

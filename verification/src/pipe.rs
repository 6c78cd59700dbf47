//! Reading a presentation from a pipe.
//!
//! The pipe carries the manifest as lines of text, then an initialization segment for
//! audio and one for video, and then segments, audio and video in turn. Segments are
//! boxes: the size of the box (four bytes), its type (four bytes) and its data. What the
//! reader does is a sequence of actions, each chosen by [`PipeReader::next`] from the
//! outcome of the one before.

use vstd::prelude::*;
use vstd::string::StringExecFns;
use bytes::Bytes;
use crate::dash::option_contents;
use crate::error::{ErrorText, IoFailure, VqdError};
use crate::packet::{
    big_endian, bytes_clone, bytes_from_vec, contents, from_big_endian, law_bytes_weigh,
    lemma_big_endian_len, lemma_from_big_endian, lemma_limits, read_big_endian, MediaPacket, WebTransportMediaPacket,
};
use crate::text::{byte_list, bytes_at, push_byte_list};

verus! {

/// The ticks of a second on the clock of piped segments.
pub const PIPE_TIMESCALE: u32 = 30_000;

/// How long the reader waits for receivers, in milliseconds.
pub const RECEIVER_WAIT_MILLIS: u64 = 1000;

/// How long the reader waits after a bad segment, in milliseconds.
pub const SEGMENT_WAIT_MILLIS: u64 = 100;

/// The size of the head of a box, which the size of the box counts in.
pub const HEADER_SIZE: usize = 8;

/// The text of the failure to read more bytes than there are.
pub const EARLY_EOF: &'static str = "early eof";

/// The text of the error for an input without a manifest.
pub const NO_MPD: &'static str = "End of input before finding MPD";

/// `<MPD`, with which a manifest begins.
pub open spec fn mpd_start() -> Seq<u8> {
    seq![0x3c, 0x4d, 0x50, 0x44]
}

/// `</MPD>`, with which a manifest ends.
pub open spec fn mpd_end() -> Seq<u8> {
    seq![0x3c, 0x2f, 0x4d, 0x50, 0x44, 0x3e]
}

/// `moov`, the type of an initialization segment.
pub open spec fn init_type() -> Seq<u8> {
    seq![0x6d, 0x6f, 0x6f, 0x76]
}

/// `moof`, the type of a segment.
pub open spec fn data_type() -> Seq<u8> {
    seq![0x6d, 0x6f, 0x6f, 0x66]
}

/// `part` stands somewhere in `line`.
pub open spec fn contains_bytes(line: Seq<u8>, part: Seq<u8>) -> bool {
    exists|i: int|
        0 <= i && i + part.len() <= line.len() && #[trigger] line.subrange(i, i + part.len())
            == part
}

/// Which box the reader is reading.
#[derive(Debug, Clone, Copy, PartialEq, Eq, Structural)]
pub enum PipeBox {
    AudioInit,
    VideoInit,
    AudioData,
    VideoData,
}

impl PipeBox {
    /// The box is an initialization segment.
    pub open spec fn is_init(self) -> bool {
        self == PipeBox::AudioInit || self == PipeBox::VideoInit
    }

    /// The type that the box must have.
    pub open spec fn box_type(self) -> Seq<u8> {
        if self.is_init() {
            init_type()
        } else {
            data_type()
        }
    }
}

/// What the reader is waiting for.
#[derive(Debug, Clone, Copy, PartialEq, Eq, Structural)]
pub enum PipePhase {
    /// The beginning.
    Idle,
    /// A line of the manifest, or before it.
    MpdLine,
    /// The head of a box.
    Header(PipeBox),
    /// The data of a box.
    Body(PipeBox),
    /// The number of receivers.
    Receivers,
    /// The end of a wait.
    Waiting,
    /// The end of sending.
    Sending,
    /// Nothing: the reader has ended.
    Ended,
}

/// What happens to the reader.
#[derive(Debug)]
pub enum PipeEvent {
    /// The reader begins.
    Begin,
    /// A line, with its end; an empty one at the end of the input.
    Line(Vec<u8>),
    /// The head of a box.
    Header(Vec<u8>),
    /// The data of a box.
    Body(Vec<u8>),
    /// The input could not be read.
    ReadFailed(IoFailure),
    /// So many receivers listen for packets.
    Receivers(usize),
    /// The wait is over.
    Waited,
    /// The packet was sent, or nobody received it.
    Sent,
}

/// What the reader does next.
#[derive(Debug)]
pub enum PipeAction {
    /// Read a line.
    ReadLine,
    /// Read the head of a box.
    ReadHeader,
    /// Read this many bytes.
    ReadBody(usize),
    /// Count the receivers.
    CountReceivers,
    /// Wait this many milliseconds.
    Wait(u64),
    /// Send a packet.
    Send(WebTransportMediaPacket),
    /// End.
    End(Result<(), VqdError>),
}

/// What an action says.
pub enum PipeStep {
    ReadLine,
    ReadHeader,
    ReadBody(nat),
    CountReceivers,
    Wait(u64),
    Send(MediaPacket),
    End(Option<ErrorText>),
}

impl View for PipeAction {
    type V = PipeStep;

    open spec fn view(&self) -> PipeStep {
        match self {
            PipeAction::ReadLine => PipeStep::ReadLine,
            PipeAction::ReadHeader => PipeStep::ReadHeader,
            PipeAction::ReadBody(n) => PipeStep::ReadBody(*n as nat),
            PipeAction::CountReceivers => PipeStep::CountReceivers,
            PipeAction::Wait(millis) => PipeStep::Wait(*millis),
            PipeAction::Send(packet) => PipeStep::Send(packet@),
            PipeAction::End(Ok(_)) => PipeStep::End(None),
            PipeAction::End(Err(e)) => PipeStep::End(Some(e@)),
        }
    }
}

/// The size that the head of a box states.
pub open spec fn box_size(header: Seq<u8>) -> nat {
    from_big_endian(header.take(4))
}

/// The type that the head of a box states.
pub open spec fn box_type(header: Seq<u8>) -> Seq<u8> {
    header.subrange(4, 8)
}

/// The text of the error for a box of another type than `wanted`.
pub open spec fn wrong_type(wanted: Seq<u8>, got: Seq<u8>) -> Seq<char> {
    "Expected box type "@ + byte_list(wanted) + ", got "@ + byte_list(got)
}

/// What a reader knows.
#[verifier::ext_equal]
pub struct PipeState {
    pub phase: PipePhase,
    /// The manifest as far as it has been read.
    pub mpd: Seq<u8>,
    /// The manifest has begun.
    pub reading_mpd: bool,
    pub audio_init: Option<Seq<u8>>,
    pub video_init: Option<Seq<u8>>,
    pub packet_id: u32,
    /// The head of the box that is being read.
    pub header: Seq<u8>,
    pub audio: Option<Seq<u8>>,
}

impl PipeState {
    /// A reader that has read nothing.
    pub open spec fn initial() -> PipeState {
        PipeState {
            phase: PipePhase::Idle,
            mpd: Seq::empty(),
            reading_mpd: false,
            audio_init: None,
            video_init: None,
            packet_id: 0,
            header: Seq::empty(),
            audio: None,
        }
    }

    /// What the phases have gathered is there in those that come after.
    pub open spec fn wf(self) -> bool {
        match self.phase {
            PipePhase::Idle | PipePhase::MpdLine | PipePhase::Ended => true,
            PipePhase::Header(b) => self.has_inits(b),
            PipePhase::Body(b) => self.has_inits(b) && self.header.len() == HEADER_SIZE && box_size(
                self.header,
            ) >= HEADER_SIZE,
            PipePhase::Receivers | PipePhase::Waiting | PipePhase::Sending => self.audio_init is Some
                && self.video_init is Some,
        }
    }

    /// The boxes that come before `b` have been read.
    pub open spec fn has_inits(self, b: PipeBox) -> bool {
        &&& b != PipeBox::AudioInit ==> self.audio_init is Some
        &&& !b.is_init() ==> self.video_init is Some
        &&& b == PipeBox::VideoData ==> self.audio is Some
    }

    /// The event can happen in the reader's phase: it is the outcome of the action. A box
    /// of the wanted type is not smaller than its head, and there is an id for the packet
    /// after the one that was sent.
    pub open spec fn admits(self, event: PipeEvent) -> bool {
        match event {
            PipeEvent::Begin => self.phase == PipePhase::Idle,
            PipeEvent::Line(_) => self.phase == PipePhase::MpdLine,
            PipeEvent::Header(header) => self.phase matches PipePhase::Header(b)
                && header@.len() == HEADER_SIZE && (box_type(header@) == b.box_type() ==> box_size(
                header@,
            ) >= HEADER_SIZE),
            PipeEvent::Body(data) => self.phase is Body && data@.len() == box_size(self.header)
                - HEADER_SIZE,
            PipeEvent::ReadFailed(_) => self.phase == PipePhase::MpdLine || self.phase is Header
                || self.phase is Body,
            PipeEvent::Receivers(_) => self.phase == PipePhase::Receivers,
            PipeEvent::Waited => self.phase == PipePhase::Waiting,
            PipeEvent::Sent => self.phase == PipePhase::Sending && self.packet_id < u32::MAX,
        }
    }

    /// The reader waits.
    pub open spec fn wait(self, millis: u64) -> (PipeState, PipeStep) {
        (PipeState { phase: PipePhase::Waiting, ..self }, PipeStep::Wait(millis))
    }

    /// The reader ends, with the error where there is one.
    pub open spec fn end(self, error: Option<ErrorText>) -> (PipeState, PipeStep) {
        (PipeState { phase: PipePhase::Ended, ..self }, PipeStep::End(error))
    }

    /// The reader reads the box `b`.
    pub open spec fn read_box(self, b: PipeBox) -> (PipeState, PipeStep) {
        (PipeState { phase: PipePhase::Header(b), ..self }, PipeStep::ReadHeader)
    }

    /// The reader looks for receivers.
    pub open spec fn count_receivers(self) -> (PipeState, PipeStep) {
        (PipeState { phase: PipePhase::Receivers, ..self }, PipeStep::CountReceivers)
    }

    /// The step with a line. The manifest is the lines from the first with `<MPD` up to
    /// the next with `</MPD>`.
    pub open spec fn step_line(self, line: Seq<u8>) -> (PipeState, PipeStep) {
        if line.len() == 0 {
            self.end(Some(ErrorText::Other(NO_MPD@)))
        } else if !self.reading_mpd {
            if contains_bytes(line, mpd_start()) {
                (
                    PipeState { reading_mpd: true, mpd: self.mpd + line, ..self },
                    PipeStep::ReadLine,
                )
            } else {
                (self, PipeStep::ReadLine)
            }
        } else {
            let longer = PipeState { mpd: self.mpd + line, ..self };
            if contains_bytes(line, mpd_end()) {
                longer.read_box(PipeBox::AudioInit)
            } else {
                (longer, PipeStep::ReadLine)
            }
        }
    }

    /// The step with the head of the box `b`.
    pub open spec fn step_header(self, b: PipeBox, header: Seq<u8>) -> (PipeState, PipeStep) {
        if box_type(header) == b.box_type() {
            (
                PipeState { phase: PipePhase::Body(b), header, ..self },
                PipeStep::ReadBody((box_size(header) - HEADER_SIZE) as nat),
            )
        } else if b.is_init() {
            self.end(Some(ErrorText::Other(wrong_type(b.box_type(), box_type(header)))))
        } else {
            self.wait(SEGMENT_WAIT_MILLIS)
        }
    }

    /// The step with the whole box `b`.
    pub open spec fn step_box(self, b: PipeBox, data: Seq<u8>) -> (PipeState, PipeStep) {
        match b {
            PipeBox::AudioInit => (PipeState { audio_init: Some(data), ..self }).read_box(
                PipeBox::VideoInit,
            ),
            PipeBox::VideoInit => (PipeState {
                video_init: Some(data),
                ..self
            }).count_receivers(),
            PipeBox::AudioData => (PipeState { audio: Some(data), ..self }).read_box(
                PipeBox::VideoData,
            ),
            PipeBox::VideoData => (
                PipeState { phase: PipePhase::Sending, ..self },
                PipeStep::Send(self.packet(data)),
            ),
        }
    }

    /// The packet of the segment whose video is `video`. Each segment lasts a second.
    pub open spec fn packet(self, video: Seq<u8>) -> MediaPacket {
        MediaPacket {
            packet_id: self.packet_id,
            timestamp: (self.packet_id * PIPE_TIMESCALE) as u64,
            duration: PIPE_TIMESCALE,
            mpd: self.mpd,
            audio_init: self.audio_init->0,
            video_init: self.video_init->0,
            audio_data: self.audio->0,
            video_data: video,
        }
    }

    /// The step with a failure to read. It ends the reader before the first segment; after
    /// that the end of the input ends it in order, and other failures make it wait.
    pub open spec fn step_failed(self, failure: IoFailure) -> (PipeState, PipeStep) {
        let in_segment = match self.phase {
            PipePhase::Header(b) => !b.is_init(),
            PipePhase::Body(b) => !b.is_init(),
            _ => false,
        };
        if !in_segment {
            self.end(Some(VqdError::Io(failure)@))
        } else if failure.unexpected_eof {
            self.end(None)
        } else {
            self.wait(SEGMENT_WAIT_MILLIS)
        }
    }

    /// The reader after `event`, and what it does next.
    pub open spec fn step(self, event: PipeEvent) -> (PipeState, PipeStep) {
        match event {
            PipeEvent::Begin => (
                PipeState { phase: PipePhase::MpdLine, ..self },
                PipeStep::ReadLine,
            ),
            PipeEvent::Line(line) => self.step_line(line@),
            PipeEvent::Header(header) => self.step_header(self.phase->Header_0, header@),
            PipeEvent::Body(data) => self.step_box(self.phase->Body_0, self.header + data@),
            PipeEvent::ReadFailed(failure) => self.step_failed(failure),
            PipeEvent::Receivers(count) => if count == 0 {
                self.wait(RECEIVER_WAIT_MILLIS)
            } else {
                self.read_box(PipeBox::AudioData)
            },
            PipeEvent::Waited => self.count_receivers(),
            PipeEvent::Sent => (PipeState {
                packet_id: (self.packet_id + 1) as u32,
                ..self
            }).count_receivers(),
        }
    }
}

/// Whether `part` stands somewhere in `line`.
fn has_bytes(line: &Vec<u8>, part: &Vec<u8>) -> (r: bool)
    ensures
        r == contains_bytes(line@, part@),
{
    if part.len() > line.len() {
        return false;
    }
    let last: usize = line.len() - part.len();
    let mut i: usize = 0;
    while i <= last
        invariant
            last == line@.len() - part@.len(),
            i <= last + 1,
            forall|k: int|
                0 <= k < i ==> #[trigger] line@.subrange(k, k + part@.len()) != part@,
        decreases last + 1 - i,
    {
        if bytes_at(line, i, part) {
            return true;
        }
        if i == last {
            return false;
        }
        i = i + 1;
    }
    false
}

/// Bytes that have come through the pipe and wait to be read.
#[derive(Debug)]
pub struct PipeInput {
    bytes: Vec<u8>,
    at: usize,
}

impl View for PipeInput {
    type V = Seq<u8>;

    closed spec fn view(&self) -> Seq<u8> {
        self.bytes@.skip(self.at as int)
    }
}

impl PipeInput {
    /// No more has been read than there was.
    pub closed spec fn wf(&self) -> bool {
        self.at <= self.bytes@.len()
    }

    /// An input of which nothing has been read.
    pub fn new(bytes: Vec<u8>) -> (r: Self)
        ensures
            r.wf(),
            r@ == bytes@,
    {
        let r = PipeInput { bytes, at: 0 };
        assert(r@ =~= bytes@);
        r
    }

    /// How many bytes are left.
    pub fn len(&self) -> (n: usize)
        requires
            self.wf(),
        ensures
            n == self@.len(),
    {
        self.bytes.len() - self.at
    }

    /// Reads `n` bytes. Where there are fewer, it reads them all and fails.
    pub fn read_exact(&mut self, n: usize) -> (r: Result<Vec<u8>, IoFailure>)
        requires
            old(self).wf(),
        ensures
            final(self).wf(),
            match r {
                Ok(bytes) => n <= old(self)@.len() && bytes@ == old(self)@.take(n as int)
                    && final(self)@ == old(self)@.skip(n as int),
                Err(failure) => n > old(self)@.len() && VqdError::Io(failure)@ == early_eof()
                    && final(self)@ == Seq::<u8>::empty(),
            },
    {
        if n > self.bytes.len() - self.at {
            self.at = self.bytes.len();
            assert(self@ =~= Seq::<u8>::empty());
            return Err(IoFailure { message: EARLY_EOF.to_owned(), unexpected_eof: true });
        }
        let end: usize = self.at + n;
        let mut out: Vec<u8> = Vec::new();
        out.extend_from_slice(vstd::slice::slice_subrange(self.bytes.as_slice(), self.at, end));
        self.at = end;
        assert(out@ =~= old(self)@.take(n as int));
        assert(self@ =~= old(self)@.skip(n as int));
        Ok(out)
    }
}

/// The error for an input that has come to its end.
pub open spec fn early_eof() -> ErrorText {
    ErrorText::Io { message: EARLY_EOF@, unexpected_eof: true }
}

/// Reading a box of the type `kind` from the front of `input`: the box with its head, or
/// the error, and what is left of the input.
pub open spec fn box_read(kind: Seq<u8>, input: Seq<u8>) -> (
    Result<Seq<u8>, ErrorText>,
    Seq<u8>,
) {
    let head = input.take(HEADER_SIZE as int);
    if input.len() < HEADER_SIZE {
        (Err(early_eof()), Seq::empty())
    } else if box_type(head) != kind {
        (
            Err(ErrorText::Other(wrong_type(kind, box_type(head)))),
            input.skip(HEADER_SIZE as int),
        )
    } else if input.len() < box_size(head) {
        (Err(early_eof()), Seq::empty())
    } else {
        (Ok(input.take(box_size(head) as int)), input.skip(box_size(head) as int))
    }
}

/// How many bytes come after the head of a box of the type `kind`, or the error where the
/// box is of another type.
fn body_size(header: &Vec<u8>, kind: &Vec<u8>) -> (r: Result<usize, VqdError>)
    requires
        header@.len() == HEADER_SIZE,
        box_type(header@) == kind@ ==> box_size(header@) >= HEADER_SIZE,
    ensures
        match r {
            Ok(n) => box_type(header@) == kind@ && n == box_size(header@) - HEADER_SIZE,
            Err(e) => box_type(header@) != kind@ && e.is_other(
                wrong_type(kind@, box_type(header@)),
            ),
        },
{
    if kind.len() == 4 && bytes_at(header, 4, kind) {
        proof {
            lemma_limits();
            assert(header@.subrange(0, 4) =~= header@.take(4));
        }
        let size: u64 = read_big_endian(header.as_slice(), 0, 4);
        Ok(size as usize - HEADER_SIZE)
    } else {
        let mut message: String = "Expected box type ".to_owned();
        push_byte_list(&mut message, kind.as_slice());
        message.append(", got ");
        push_byte_list(&mut message, vstd::slice::slice_subrange(header.as_slice(), 4, 8));
        Err(VqdError::Other(message))
    }
}

/// The reader of a pipe.
#[derive(Debug)]
pub struct PipeReader {
    phase: PipePhase,
    mpd_lines: Vec<u8>,
    mpd: Option<Bytes>,
    reading_mpd: bool,
    audio_init: Option<Bytes>,
    video_init: Option<Bytes>,
    packet_id: u32,
    header: Vec<u8>,
    audio: Option<Bytes>,
}

impl View for PipeReader {
    type V = PipeState;

    closed spec fn view(&self) -> PipeState {
        PipeState {
            phase: self.phase,
            mpd: match self.mpd {
                Some(mpd) => contents(mpd),
                None => self.mpd_lines@,
            },
            reading_mpd: self.reading_mpd,
            audio_init: option_contents(self.audio_init),
            video_init: option_contents(self.video_init),
            packet_id: self.packet_id,
            header: self.header@,
            audio: option_contents(self.audio),
        }
    }
}

impl PipeBox {
    /// The type that the box must have.
    fn wanted_type(self) -> (r: Vec<u8>)
        ensures
            r@ == self.box_type(),
    {
        let r: Vec<u8> = match self {
            PipeBox::AudioInit | PipeBox::VideoInit => vec![0x6d, 0x6f, 0x6f, 0x76],
            PipeBox::AudioData | PipeBox::VideoData => vec![0x6d, 0x6f, 0x6f, 0x66],
        };
        assert(r@ =~= self.box_type());
        r
    }
}

impl PipeReader {
    /// The parts of the reader fit together.
    pub closed spec fn wf(&self) -> bool {
        &&& self@.wf()
        &&& self.phase == PipePhase::Idle || self.phase == PipePhase::MpdLine
            ==> self.mpd is None
        &&& self.phase != PipePhase::Idle && self.phase != PipePhase::MpdLine && self.phase
            != PipePhase::Ended ==> self.mpd is Some
    }

    /// A reader that has read nothing.
    pub fn new() -> (r: Self)
        ensures
            r.wf(),
            r@ == PipeState::initial(),
    {
        let r = PipeReader {
            phase: PipePhase::Idle,
            mpd_lines: Vec::new(),
            mpd: None,
            reading_mpd: false,
            audio_init: None,
            video_init: None,
            packet_id: 0,
            header: Vec::new(),
            audio: None,
        };
        assert(r@ =~= PipeState::initial());
        r
    }

    /// What the reader knows fits together.
    pub proof fn lemma_wf(&self)
        requires
            self.wf(),
        ensures
            self@.wf(),
    {
    }

    /// Reads a box of the given type from the front of the input: the box with its head. A
    /// box of the type is not smaller than its head.
    pub fn read_mp4_box(&self, input: &mut PipeInput, box_type: &[u8]) -> (r: Result<
        Bytes,
        VqdError,
    >)
        requires
            old(input).wf(),
            ({
                let head = old(input)@.take(HEADER_SIZE as int);
                old(input)@.len() >= HEADER_SIZE && self::box_type(head) == box_type@ ==> box_size(
                    head,
                ) >= HEADER_SIZE
            }),
        ensures
            final(input).wf(),
            match r {
                Ok(whole) => box_read(box_type@, old(input)@) == (
                    Ok::<Seq<u8>, ErrorText>(contents(whole)),
                    final(input)@,
                ),
                Err(e) => box_read(box_type@, old(input)@) == (
                    Err::<Seq<u8>, ErrorText>(e@),
                    final(input)@,
                ),
            },
    {
        let mut buffer: Vec<u8> = match input.read_exact(HEADER_SIZE) {
            Ok(header) => header,
            Err(failure) => return Err(VqdError::Io(failure)),
        };
        let mut kind: Vec<u8> = Vec::new();
        kind.extend_from_slice(box_type);
        assert(kind@ =~= box_type@);
        let ghost head = buffer@;
        match body_size(&buffer, &kind) {
            Ok(n) => match input.read_exact(n) {
                Ok(data) => {
                    buffer.extend_from_slice(data.as_slice());
                    proof {
                        let size = box_size(head) as int;
                        assert(buffer@ =~= old(input)@.take(size));
                        assert(input@ =~= old(input)@.skip(size));
                    }
                    Ok(bytes_from_vec(buffer))
                },
                Err(failure) => Err(VqdError::Io(failure)),
            },
            Err(e) => Err(e),
        }
    }

    /// The id of the packet that is sent next.
    pub fn packet_id(&self) -> (id: u32)
        ensures
            id == self@.packet_id,
    {
        self.packet_id
    }

    /// Whether the size of a box of the wanted type counts its head in.
    pub fn can_read_box(&self, header: &Vec<u8>) -> (r: bool)
        requires
            self@.phase is Header,
            header@.len() == HEADER_SIZE,
        ensures
            r == (box_type(header@) == self@.phase->Header_0.box_type() ==> box_size(header@)
                >= HEADER_SIZE),
    {
        match self.phase {
            PipePhase::Header(b) => {
                let size: u64 = read_big_endian(header.as_slice(), 0, 4);
                assert(header@.subrange(0, 4) =~= header@.take(4));
                !bytes_at(header, 4, &b.wanted_type()) || size >= HEADER_SIZE as u64
            },
            _ => true,
        }
    }

    /// The time at which the next segment starts, in ticks.
    fn calculate_timestamp_from_segments(&self) -> (ticks: u64)
        ensures
            ticks == self@.packet_id * PIPE_TIMESCALE,
    {
        self.packet_id as u64 * PIPE_TIMESCALE as u64
    }

    /// How long a segment lasts, in ticks.
    fn calculate_duration_from_segments(&self) -> (ticks: u32)
        ensures
            ticks == PIPE_TIMESCALE,
    {
        PIPE_TIMESCALE
    }

    /// Waits.
    fn wait(&mut self, millis: u64) -> (action: PipeAction)
        requires
            old(self).wf(),
            old(self)@.audio_init is Some,
            old(self)@.video_init is Some,
            old(self)@.phase is Header || old(self)@.phase is Body || old(self)@.phase
                == PipePhase::Receivers,
        ensures
            final(self).wf(),
            (final(self)@, action@) == old(self)@.wait(millis),
    {
        self.phase = PipePhase::Waiting;
        PipeAction::Wait(millis)
    }

    /// Goes on with a line.
    fn read_mpd_line(&mut self, line: Vec<u8>) -> (action: PipeAction)
        requires
            old(self).wf(),
            old(self)@.phase == PipePhase::MpdLine,
        ensures
            final(self).wf(),
            (final(self)@, action@) == old(self)@.step_line(line@),
    {
        if line.len() == 0 {
            self.phase = PipePhase::Ended;
            return PipeAction::End(Err(VqdError::Other(NO_MPD.to_owned())));
        }
        let start: Vec<u8> = vec![0x3c, 0x4d, 0x50, 0x44];
        assert(start@ =~= mpd_start());
        let end: Vec<u8> = vec![0x3c, 0x2f, 0x4d, 0x50, 0x44, 0x3e];
        assert(end@ =~= mpd_end());
        if !self.reading_mpd {
            if has_bytes(&line, &start) {
                self.reading_mpd = true;
                self.mpd_lines.extend_from_slice(line.as_slice());
            }
            assert(self@ =~= old(self)@.step_line(line@).0);
            PipeAction::ReadLine
        } else {
            self.mpd_lines.extend_from_slice(line.as_slice());
            if has_bytes(&line, &end) {
                let mut lines: Vec<u8> = Vec::new();
                std::mem::swap(&mut lines, &mut self.mpd_lines);
                self.mpd = Some(bytes_from_vec(lines));
                self.phase = PipePhase::Header(PipeBox::AudioInit);
                assert(self@ =~= old(self)@.step_line(line@).0);
                PipeAction::ReadHeader
            } else {
                assert(self@ =~= old(self)@.step_line(line@).0);
                PipeAction::ReadLine
            }
        }
    }

    /// Goes on with the head of the box `b`.
    fn take_header(&mut self, b: PipeBox, header: Vec<u8>) -> (action: PipeAction)
        requires
            old(self).wf(),
            old(self)@.phase == PipePhase::Header(b),
            header@.len() == HEADER_SIZE,
            box_type(header@) == b.box_type() ==> box_size(header@) >= HEADER_SIZE,
        ensures
            final(self).wf(),
            (final(self)@, action@) == old(self)@.step_header(b, header@),
    {
        match body_size(&header, &b.wanted_type()) {
            Ok(n) => {
                self.header = header;
                self.phase = PipePhase::Body(b);
                PipeAction::ReadBody(n)
            },
            Err(e) => if b == PipeBox::AudioInit || b == PipeBox::VideoInit {
                self.phase = PipePhase::Ended;
                PipeAction::End(Err(e))
            } else {
                self.wait(SEGMENT_WAIT_MILLIS)
            },
        }
    }

    /// Goes on with the data of the box `b`.
    fn take_box(&mut self, b: PipeBox, data: Vec<u8>) -> (action: PipeAction)
        requires
            old(self).wf(),
            old(self)@.phase == PipePhase::Body(b),
        ensures
            final(self).wf(),
            (final(self)@, action@) == old(self)@.step_box(b, old(self)@.header + data@),
    {
        let mut buffer: Vec<u8> = Vec::new();
        buffer.extend_from_slice(self.header.as_slice());
        buffer.extend_from_slice(data.as_slice());
        assert(buffer@ =~= self@.header + data@);
        let whole: Bytes = bytes_from_vec(buffer);
        match b {
            PipeBox::AudioInit => {
                self.audio_init = Some(whole);
                self.phase = PipePhase::Header(PipeBox::VideoInit);
                PipeAction::ReadHeader
            },
            PipeBox::VideoInit => {
                self.video_init = Some(whole);
                self.phase = PipePhase::Receivers;
                PipeAction::CountReceivers
            },
            PipeBox::AudioData => {
                self.audio = Some(whole);
                self.phase = PipePhase::Header(PipeBox::VideoData);
                PipeAction::ReadHeader
            },
            PipeBox::VideoData => {
                let packet = WebTransportMediaPacket {
                    packet_id: self.packet_id,
                    timestamp: self.calculate_timestamp_from_segments(),
                    duration: self.calculate_duration_from_segments(),
                    mpd: bytes_clone(self.mpd.as_ref().unwrap()),
                    audio_init: bytes_clone(self.audio_init.as_ref().unwrap()),
                    video_init: bytes_clone(self.video_init.as_ref().unwrap()),
                    audio_data: bytes_clone(self.audio.as_ref().unwrap()),
                    video_data: whole,
                };
                self.phase = PipePhase::Sending;
                PipeAction::Send(packet)
            },
        }
    }

    /// Goes on after a failure to read.
    fn read_failed(&mut self, failure: IoFailure) -> (action: PipeAction)
        requires
            old(self).wf(),
            old(self)@.phase == PipePhase::MpdLine || old(self)@.phase is Header || old(
                self,
            )@.phase is Body,
        ensures
            final(self).wf(),
            (final(self)@, action@) == old(self)@.step_failed(failure),
    {
        let in_segment: bool = match self.phase {
            PipePhase::Header(b) | PipePhase::Body(b) => b == PipeBox::AudioData || b
                == PipeBox::VideoData,
            _ => false,
        };
        if !in_segment {
            self.phase = PipePhase::Ended;
            PipeAction::End(Err(VqdError::Io(failure)))
        } else if failure.unexpected_eof {
            self.phase = PipePhase::Ended;
            PipeAction::End(Ok(()))
        } else {
            self.wait(SEGMENT_WAIT_MILLIS)
        }
    }

    /// Takes the reader from the outcome of one action to the next action.
    pub fn next(&mut self, event: PipeEvent) -> (action: PipeAction)
        requires
            old(self).wf(),
            old(self)@.admits(event),
        ensures
            final(self).wf(),
            (final(self)@, action@) == old(self)@.step(event),
    {
        match event {
            PipeEvent::Begin => {
                self.phase = PipePhase::MpdLine;
                PipeAction::ReadLine
            },
            PipeEvent::Line(line) => self.read_mpd_line(line),
            PipeEvent::Header(header) => match self.phase {
                PipePhase::Header(b) => self.take_header(b, header),
                _ => PipeAction::ReadHeader,
            },
            PipeEvent::Body(data) => match self.phase {
                PipePhase::Body(b) => self.take_box(b, data),
                _ => PipeAction::ReadHeader,
            },
            PipeEvent::ReadFailed(failure) => self.read_failed(failure),
            PipeEvent::Receivers(count) => {
                if count == 0 {
                    self.wait(RECEIVER_WAIT_MILLIS)
                } else {
                    self.phase = PipePhase::Header(PipeBox::AudioData);
                    PipeAction::ReadHeader
                }
            },
            PipeEvent::Waited => {
                self.phase = PipePhase::Receivers;
                PipeAction::CountReceivers
            },
            PipeEvent::Sent => {
                self.packet_id = self.packet_id + 1;
                self.phase = PipePhase::Receivers;
                PipeAction::CountReceivers
            },
        }
    }
}

impl PipeState {
    /// The reader after `lines`.
    pub open spec fn after_lines(self, lines: Seq<Seq<u8>>) -> PipeState
        decreases lines.len(),
    {
        if lines.len() == 0 {
            self
        } else {
            self.after_lines(lines.drop_last()).step_line(lines.last()).0
        }
    }

    /// The reader after `events`.
    pub open spec fn after(self, events: Seq<PipeEvent>) -> PipeState
        decreases events.len(),
    {
        if events.len() == 0 {
            self
        } else {
            self.after(events.drop_last()).step(events.last()).0
        }
    }

    /// Each of `events` can happen after those before it.
    pub open spec fn admits_all(self, events: Seq<PipeEvent>) -> bool
        decreases events.len(),
    {
        events.len() > 0 ==> self.admits_all(events.drop_last()) && self.after(
            events.drop_last(),
        ).admits(events.last())
    }

    /// The packets that are sent in the course of `events`.
    pub open spec fn sent(self, events: Seq<PipeEvent>) -> Seq<MediaPacket>
        decreases events.len(),
    {
        if events.len() == 0 {
            Seq::empty()
        } else {
            let before = self.sent(events.drop_last());
            match self.after(events.drop_last()).step(events.last()).1 {
                PipeStep::Send(packet) => before.push(packet),
                _ => before,
            }
        }
    }
}

/// The bytes of `lines`, one line after the other.
pub open spec fn joined(lines: Seq<Seq<u8>>) -> Seq<u8>
    decreases lines.len(),
{
    if lines.len() == 0 {
        Seq::empty()
    } else {
        joined(lines.drop_last()) + lines.last()
    }
}

/// The manifest is in the lines from `first` to `last`: the first with `<MPD`, and of
/// those after it the first with `</MPD>`.
pub open spec fn is_mpd_span(lines: Seq<Seq<u8>>, first: int, last: int) -> bool {
    &&& 0 <= first < last < lines.len()
    &&& forall|i: int| 0 <= i < first ==> !contains_bytes(#[trigger] lines[i], mpd_start())
    &&& contains_bytes(lines[first], mpd_start())
    &&& forall|i: int| first < i < last ==> !contains_bytes(#[trigger] lines[i], mpd_end())
    &&& contains_bytes(lines[last], mpd_end())
    &&& forall|i: int| 0 <= i <= last ==> (#[trigger] lines[i]).len() > 0
}

proof fn lemma_lines(start: PipeState, lines: Seq<Seq<u8>>, first: int, last: int, k: int)
    requires
        start.phase == PipePhase::MpdLine,
        !start.reading_mpd,
        start.mpd.len() == 0,
        is_mpd_span(lines, first, last),
        0 <= k <= last + 1,
    ensures
        ({
            let now = start.after_lines(lines.take(k));
            &&& now.phase == if k <= last {
                PipePhase::MpdLine
            } else {
                PipePhase::Header(PipeBox::AudioInit)
            }
            &&& now.reading_mpd == (first < k)
            &&& now.mpd == if first < k {
                joined(lines.subrange(first, k))
            } else {
                Seq::empty()
            }
        }),
    decreases k,
{
    if k > 0 {
        lemma_lines(start, lines, first, last, k - 1);
        assert(lines.take(k).drop_last() =~= lines.take(k - 1));
        assert(lines.take(k).last() == lines[k - 1]);
        if first < k {
            assert(lines.subrange(first, k).drop_last() =~= lines.subrange(first, k - 1));
            assert(lines.subrange(first, k).last() == lines[k - 1]);
            if first == k - 1 {
                assert(lines.subrange(first, k - 1) =~= Seq::<Seq<u8>>::empty());
                assert(joined(Seq::<Seq<u8>>::empty()) =~= Seq::<u8>::empty());
            }
        }
    } else {
        assert(lines.take(k) =~= Seq::<Seq<u8>>::empty());
        assert(start.mpd =~= Seq::<u8>::empty());
    }
}

/// The reader goes on reading lines until it has the last line of the manifest. It then
/// holds the lines of the manifest, all of them and no others, and reads the first box.
pub proof fn law_manifest_is_span(lines: Seq<Seq<u8>>, first: int, last: int, k: int)
    requires
        is_mpd_span(lines, first, last),
        0 <= k <= last,
    ensures
        ({
            let start = PipeState { phase: PipePhase::MpdLine, ..PipeState::initial() };
            let end = start.after_lines(lines.take(last + 1));
            &&& start.after_lines(lines.take(k)).phase == PipePhase::MpdLine
            &&& end.phase == PipePhase::Header(PipeBox::AudioInit)
            &&& end.mpd == joined(lines.subrange(first, last + 1))
        }),
{
    let start = PipeState { phase: PipePhase::MpdLine, ..PipeState::initial() };
    lemma_lines(start, lines, first, last, k);
    lemma_lines(start, lines, first, last, last + 1);
}

/// One step of the reader: it stays well-formed, and a packet is sent under the current
/// id, which goes up when the packet is gone.
pub proof fn law_step(s: PipeState, event: PipeEvent)
    requires
        s.wf(),
        s.admits(event),
    ensures
        ({
            let (after, step) = s.step(event);
            &&& after.wf()
            &&& step matches PipeStep::Send(packet) ==> packet.packet_id == s.packet_id
                && packet.timestamp == s.packet_id * PIPE_TIMESCALE
            &&& step is Send <==> after.phase == PipePhase::Sending
            &&& after.packet_id == s.packet_id + if s.phase == PipePhase::Sending {
                1int
            } else {
                0
            }
        }),
{
}

proof fn lemma_course(events: Seq<PipeEvent>)
    requires
        PipeState::initial().admits_all(events),
    ensures
        ({
            let s = PipeState::initial();
            let now = s.after(events);
            &&& now.wf()
            &&& s.sent(events).len() == now.packet_id + if now.phase == PipePhase::Sending {
                1int
            } else {
                0
            }
            &&& forall|i: int|
                0 <= i < s.sent(events).len() ==> (#[trigger] s.sent(events)[i]).packet_id == i
                    && s.sent(events)[i].timestamp == i * PIPE_TIMESCALE
        }),
    decreases events.len(),
{
    if events.len() > 0 {
        let s = PipeState::initial();
        lemma_course(events.drop_last());
        law_step(s.after(events.drop_last()), events.last());
    }
}

/// The packets of a reader are numbered from zero on, in the order in which they are
/// sent, and each starts a second after the one before it.
pub proof fn law_packet_ids(events: Seq<PipeEvent>, i: int)
    requires
        PipeState::initial().admits_all(events),
        0 <= i < PipeState::initial().sent(events).len(),
    ensures
        PipeState::initial().sent(events)[i].packet_id == i,
        PipeState::initial().sent(events)[i].timestamp == i * PIPE_TIMESCALE,
{
    lemma_course(events);
}

/// Two boxes in a row become one packet: the first is its audio and the second its video,
/// each with its head.
pub proof fn law_pair_becomes_packet(
    s: PipeState,
    count: usize,
    audio_head: Vec<u8>,
    audio: Vec<u8>,
    video_head: Vec<u8>,
    video: Vec<u8>,
)
    requires
        s.phase == PipePhase::Receivers,
        count > 0,
        box_type(audio_head@) == data_type(),
        box_type(video_head@) == data_type(),
    ensures
        ({
            let (s1, step1) = s.step(PipeEvent::Receivers(count));
            let (s2, step2) = s1.step(PipeEvent::Header(audio_head));
            let (s3, step3) = s2.step(PipeEvent::Body(audio));
            let (s4, step4) = s3.step(PipeEvent::Header(video_head));
            let (s5, step5) = s4.step(PipeEvent::Body(video));
            &&& step1 == PipeStep::ReadHeader
            &&& step2 == PipeStep::ReadBody((box_size(audio_head@) - HEADER_SIZE) as nat)
            &&& step3 == PipeStep::ReadHeader
            &&& step4 == PipeStep::ReadBody((box_size(video_head@) - HEADER_SIZE) as nat)
            &&& step5 matches PipeStep::Send(packet) && {
                &&& packet.packet_id == s.packet_id
                &&& packet.audio_data == audio_head@ + audio@
                &&& packet.video_data == video_head@ + video@
                &&& packet.mpd == s.mpd
                &&& packet.audio_init == s.audio_init->0
                &&& packet.video_init == s.video_init->0
            }
        }),
{
}

/// A box of the type `kind` with `data`: its size, its type and the data.
pub open spec fn framed(kind: Seq<u8>, data: Seq<u8>) -> Seq<u8> {
    big_endian(HEADER_SIZE as nat + data.len(), 4) + kind + data
}

impl PipeState {
    /// The reader after it has read the box `b` from the front of `input`, what it does
    /// next, and what is left of the input. It reads the head, and then as many bytes as it
    /// asks for.
    pub open spec fn read_from(self, b: PipeBox, input: Seq<u8>) -> (PipeState, PipeStep, Seq<u8>) {
        let (headed, step) = self.step_header(b, input.take(HEADER_SIZE as int));
        match step {
            PipeStep::ReadBody(n) => {
                let (after, next) = headed.step_box(
                    b,
                    headed.header + input.subrange(HEADER_SIZE as int, HEADER_SIZE + n),
                );
                (after, next, input.skip(HEADER_SIZE + n))
            },
            _ => (headed, step, input.skip(HEADER_SIZE as int)),
        }
    }

    /// The reader after it has read `count` pairs of segments from the front of `input`
    /// while somebody listens, the packets that it sends, and what is left of the input.
    pub open spec fn read_pairs(self, input: Seq<u8>, count: nat) -> (
        PipeState,
        Seq<MediaPacket>,
        Seq<u8>,
    )
        decreases count,
    {
        if count == 0 {
            (self, Seq::empty(), input)
        } else {
            let begun = self.step(PipeEvent::Receivers(1)).0;
            let (half, _, left) = begun.read_from(PipeBox::AudioData, input);
            let (read, step, left) = half.read_from(PipeBox::VideoData, left);
            let sent = match step {
                PipeStep::Send(packet) => seq![packet],
                _ => Seq::empty(),
            };
            let (after, more, left) = read.step(PipeEvent::Sent).0.read_pairs(
                left,
                (count - 1) as nat,
            );
            (after, sent + more, left)
        }
    }
}

proof fn lemma_framed(kind: Seq<u8>, data: Seq<u8>, rest: Seq<u8>)
    requires
        kind.len() == 4,
        HEADER_SIZE + data.len() <= u32::MAX,
    ensures
        ({
            let whole = framed(kind, data);
            let input = whole + rest;
            let head = input.take(HEADER_SIZE as int);
            &&& head == whole.take(HEADER_SIZE as int)
            &&& head.len() == HEADER_SIZE
            &&& box_type(head) == kind
            &&& box_size(head) == HEADER_SIZE + data.len()
            &&& head + input.subrange(HEADER_SIZE as int, HEADER_SIZE + data.len()) == whole
            &&& input.skip(HEADER_SIZE + data.len()) == rest
        }),
{
    let size = HEADER_SIZE as nat + data.len();
    lemma_limits();
    lemma_big_endian_len(size, 4);
    lemma_from_big_endian(size, 4);
    let whole = framed(kind, data);
    let input = whole + rest;
    let head = input.take(HEADER_SIZE as int);
    assert(head =~= whole.take(HEADER_SIZE as int));
    assert(box_type(head) =~= kind);
    assert(head.take(4) =~= big_endian(size, 4));
    assert(head + input.subrange(HEADER_SIZE as int, HEADER_SIZE + data.len()) =~= whole);
    assert(input.skip(HEADER_SIZE + data.len()) =~= rest);
}

/// A box of the wanted type is read whole, its head with it, and nothing after it is read:
/// the reader keeps the box, or sends it as the video of a packet, and all that comes after
/// the box is left.
pub proof fn law_box_is_read_whole(s: PipeState, b: PipeBox, data: Seq<u8>, rest: Seq<u8>)
    requires
        s.phase == PipePhase::Header(b),
        HEADER_SIZE + data.len() <= u32::MAX,
    ensures
        ({
            let whole = framed(b.box_type(), data);
            let (after, next, left) = s.read_from(b, whole + rest);
            &&& left == rest
            &&& (after, next) == (PipeState {
                phase: PipePhase::Body(b),
                header: whole.take(HEADER_SIZE as int),
                ..s
            }).step_box(b, whole)
            &&& match b {
                PipeBox::AudioInit => after.audio_init == Some(whole),
                PipeBox::VideoInit => after.video_init == Some(whole),
                PipeBox::AudioData => after.audio == Some(whole),
                PipeBox::VideoData => next matches PipeStep::Send(packet) && packet.video_data
                    == whole,
            }
        }),
{
    lemma_framed(b.box_type(), data, rest);
}

/// A head of the wanted type and the data that it announces are kept as one box, the head
/// first; a reader that is handed the two reads the box as from an input that begins with
/// them.
pub proof fn law_events_read_box(
    s: PipeState,
    b: PipeBox,
    head: Vec<u8>,
    data: Vec<u8>,
    rest: Seq<u8>,
)
    requires
        s.wf(),
        s.phase == PipePhase::Header(b),
        head@.len() == HEADER_SIZE,
        box_type(head@) == b.box_type(),
        box_size(head@) == HEADER_SIZE + data@.len(),
    ensures
        ({
            let (headed, step) = s.step(PipeEvent::Header(head));
            let (after, next) = headed.step(PipeEvent::Body(data));
            &&& s.admits(PipeEvent::Header(head))
            &&& step == PipeStep::ReadBody(data@.len())
            &&& headed.admits(PipeEvent::Body(data))
            &&& (after, next, rest) == s.read_from(b, head@ + data@ + rest)
            &&& match b {
                PipeBox::AudioInit => after.audio_init == Some(head@ + data@),
                PipeBox::VideoInit => after.video_init == Some(head@ + data@),
                PipeBox::AudioData => after.audio == Some(head@ + data@),
                PipeBox::VideoData => next matches PipeStep::Send(packet) && packet.video_data
                    == head@ + data@,
            }
        }),
{
    let input = head@ + data@ + rest;
    assert(input.take(HEADER_SIZE as int) =~= head@);
    assert(input.subrange(HEADER_SIZE as int, HEADER_SIZE + data@.len()) =~= data@);
    assert(input.skip(HEADER_SIZE + data@.len()) =~= rest);
}

/// The boxes of `pairs`, audio and video in turn.
pub open spec fn stream(pairs: Seq<(Seq<u8>, Seq<u8>)>) -> Seq<u8>
    decreases pairs.len(),
{
    if pairs.len() == 0 {
        Seq::empty()
    } else {
        framed(data_type(), pairs[0].0) + framed(data_type(), pairs[0].1) + stream(pairs.skip(1))
    }
}

/// Boxes that follow one another are read one by one: each pair of segments gives a packet
/// with these two boxes and the manifest and initialization segments of the reader, in
/// order, and what comes after the last box is left.
pub proof fn law_boxes_one_by_one(
    s: PipeState,
    pairs: Seq<(Seq<u8>, Seq<u8>)>,
    rest: Seq<u8>,
)
    requires
        s.phase == PipePhase::Receivers,
        s.packet_id + pairs.len() <= u32::MAX,
        forall|i: int|
            0 <= i < pairs.len() ==> HEADER_SIZE + (#[trigger] pairs[i]).0.len() <= u32::MAX
                && HEADER_SIZE + pairs[i].1.len() <= u32::MAX,
    ensures
        ({
            let (after, packets, left) = s.read_pairs(stream(pairs) + rest, pairs.len());
            &&& left == rest
            &&& after.phase == PipePhase::Receivers
            &&& after.packet_id == s.packet_id + pairs.len()
            &&& packets.len() == pairs.len()
            &&& forall|i: int|
                0 <= i < packets.len() ==> {
                    let packet = #[trigger] packets[i];
                    &&& packet.packet_id == s.packet_id + i
                    &&& packet.audio_data == framed(data_type(), pairs[i].0)
                    &&& packet.video_data == framed(data_type(), pairs[i].1)
                    &&& packet.mpd == s.mpd
                    &&& packet.audio_init == s.audio_init->0
                    &&& packet.video_init == s.video_init->0
                }
        }),
    decreases pairs.len(),
{
    let input = stream(pairs) + rest;
    if pairs.len() == 0 {
        assert(input =~= rest);
    } else {
        let audio = framed(data_type(), pairs[0].0);
        let video = framed(data_type(), pairs[0].1);
        let later = stream(pairs.skip(1)) + rest;
        assert(input =~= audio + (video + later));
        let begun = s.step(PipeEvent::Receivers(1)).0;
        law_box_is_read_whole(begun, PipeBox::AudioData, pairs[0].0, video + later);
        let half = begun.read_from(PipeBox::AudioData, input).0;
        law_box_is_read_whole(half, PipeBox::VideoData, pairs[0].1, later);
        let (read, step, left) = half.read_from(PipeBox::VideoData, video + later);
        let next = read.step(PipeEvent::Sent).0;
        assert forall|i: int| 0 <= i < pairs.skip(1).len() implies HEADER_SIZE + (
        #[trigger] pairs.skip(1)[i]).0.len() <= u32::MAX && HEADER_SIZE + pairs.skip(1)[i].1.len()
            <= u32::MAX by {
            assert(pairs.skip(1)[i] == pairs[i + 1]);
        }
        law_boxes_one_by_one(next, pairs.skip(1), rest);
        let packets = s.read_pairs(input, pairs.len()).1;
        let more = next.read_pairs(later, pairs.skip(1).len()).1;
        assert(packets =~= seq![step->Send_0] + more);
        assert forall|i: int| 0 <= i < packets.len() implies {
            let packet = #[trigger] packets[i];
            &&& packet.packet_id == s.packet_id + i
            &&& packet.audio_data == framed(data_type(), pairs[i].0)
            &&& packet.video_data == framed(data_type(), pairs[i].1)
            &&& packet.mpd == s.mpd
            &&& packet.audio_init == s.audio_init->0
            &&& packet.video_init == s.video_init->0
        } by {
            if i > 0 {
                assert(packets[i] == more[i - 1]);
                assert(pairs.skip(1)[i - 1] == pairs[i]);
            }
        }
    }
}

/// A box comes back whole, its head with it, whatever its type, and what comes after it is
/// left.
pub proof fn law_box_comes_back(kind: Seq<u8>, data: Seq<u8>, rest: Seq<u8>)
    requires
        kind.len() == 4,
        HEADER_SIZE + data.len() <= u32::MAX,
    ensures
        box_size((framed(kind, data) + rest).take(HEADER_SIZE as int)) >= HEADER_SIZE,
        box_read(kind, framed(kind, data) + rest) == (
            Ok::<Seq<u8>, ErrorText>(framed(kind, data)),
            rest,
        ),
{
    lemma_framed(kind, data, rest);
    lemma_big_endian_len(HEADER_SIZE as nat + data.len(), 4);
    let input = framed(kind, data) + rest;
    assert(input.take(HEADER_SIZE + data.len()) =~= framed(kind, data));
}

/// Reading boxes of the types `kinds`, one after the other, from the front of `input`.
pub open spec fn boxes_read(kinds: Seq<Seq<u8>>, input: Seq<u8>) -> (
    Seq<Result<Seq<u8>, ErrorText>>,
    Seq<u8>,
)
    decreases kinds.len(),
{
    if kinds.len() == 0 {
        (Seq::empty(), input)
    } else {
        let (first, left) = box_read(kinds[0], input);
        let (more, left) = boxes_read(kinds.skip(1), left);
        (seq![first] + more, left)
    }
}

/// Boxes of the types `kinds` with `data`, one after the other.
pub open spec fn all_framed(kinds: Seq<Seq<u8>>, data: Seq<Seq<u8>>) -> Seq<u8>
    decreases kinds.len(),
{
    if kinds.len() == 0 {
        Seq::empty()
    } else {
        framed(kinds[0], data[0]) + all_framed(kinds.skip(1), data.skip(1))
    }
}

/// Boxes of any types that follow one another come back one by one, each whole, and what
/// comes after the last is left.
pub proof fn law_boxes_come_back_one_by_one(
    kinds: Seq<Seq<u8>>,
    data: Seq<Seq<u8>>,
    rest: Seq<u8>,
)
    requires
        kinds.len() == data.len(),
        forall|i: int| 0 <= i < kinds.len() ==> (#[trigger] kinds[i]).len() == 4,
        forall|i: int|
            0 <= i < data.len() ==> HEADER_SIZE + (#[trigger] data[i]).len() <= u32::MAX,
    ensures
        ({
            let (boxes, left) = boxes_read(kinds, all_framed(kinds, data) + rest);
            &&& left == rest
            &&& boxes.len() == kinds.len()
            &&& forall|i: int|
                0 <= i < boxes.len() ==> #[trigger] boxes[i] == Ok::<Seq<u8>, ErrorText>(
                    framed(kinds[i], data[i]),
                )
        }),
    decreases kinds.len(),
{
    let input = all_framed(kinds, data) + rest;
    if kinds.len() == 0 {
        assert(input =~= rest);
    } else {
        let later = all_framed(kinds.skip(1), data.skip(1)) + rest;
        assert(input =~= framed(kinds[0], data[0]) + later);
        law_box_comes_back(kinds[0], data[0], later);
        law_boxes_come_back_one_by_one(kinds.skip(1), data.skip(1), rest);
        let boxes = boxes_read(kinds, input).0;
        let more = boxes_read(kinds.skip(1), later).0;
        assert forall|i: int| 0 <= i < boxes.len() implies #[trigger] boxes[i] == Ok::<
            Seq<u8>,
            ErrorText,
        >(framed(kinds[i], data[i])) by {
            if i > 0 {
                assert(boxes[i] == more[i - 1]);
            }
        }
    }
}

/// A reader that wants a box takes from an input the box that reading one gives, and
/// leaves what that leaves.
pub proof fn law_reader_takes_box_read(s: PipeState, b: PipeBox, input: Seq<u8>)
    requires
        s.phase == PipePhase::Header(b),
        box_read(b.box_type(), input).0 is Ok,
        box_size(input.take(HEADER_SIZE as int)) >= HEADER_SIZE,
    ensures
        ({
            let (whole, left) = box_read(b.box_type(), input);
            let (after, next, remaining) = s.read_from(b, input);
            &&& remaining == left
            &&& (after, next) == (PipeState {
                phase: PipePhase::Body(b),
                header: input.take(HEADER_SIZE as int),
                ..s
            }).step_box(b, whole->Ok_0)
        }),
{
    let head = input.take(HEADER_SIZE as int);
    let size = box_size(head) as int;
    assert(head + input.subrange(HEADER_SIZE as int, size) =~= input.take(size));
}

/// The reader has what comes before the segments.
spec fn past_inits(phase: PipePhase) -> bool {
    match phase {
        PipePhase::Idle | PipePhase::MpdLine => false,
        PipePhase::Header(b) => !b.is_init(),
        PipePhase::Body(b) => !b.is_init(),
        PipePhase::Receivers | PipePhase::Waiting | PipePhase::Sending | PipePhase::Ended => true,
    }
}

proof fn lemma_packets_share(events: Seq<PipeEvent>)
    requires
        PipeState::initial().admits_all(events),
    ensures
        ({
            let s = PipeState::initial();
            let now = s.after(events);
            let sent = s.sent(events);
            &&& now.wf()
            &&& sent.len() > 0 ==> past_inits(now.phase)
            &&& forall|i: int|
                0 <= i < sent.len() ==> {
                    &&& (#[trigger] sent[i]).mpd == now.mpd
                    &&& sent[i].audio_init == now.audio_init->0
                    &&& sent[i].video_init == now.video_init->0
                    &&& sent[i].duration == PIPE_TIMESCALE
                }
        }),
    decreases events.len(),
{
    if events.len() > 0 {
        let s = PipeState::initial();
        let front = events.drop_last();
        lemma_packets_share(front);
        let before = s.after(front);
        let now = s.after(events);
        let sent = s.sent(events);
        law_step(before, events.last());
        assert(past_inits(before.phase) ==> past_inits(now.phase) && now.mpd == before.mpd
            && now.audio_init == before.audio_init && now.video_init == before.video_init);
        assert forall|i: int| 0 <= i < sent.len() implies {
            &&& (#[trigger] sent[i]).mpd == now.mpd
            &&& sent[i].audio_init == now.audio_init->0
            &&& sent[i].video_init == now.video_init->0
            &&& sent[i].duration == PIPE_TIMESCALE
        } by {
            if i < s.sent(front).len() {
                assert(sent[i] == s.sent(front)[i]);
            }
        }
    }
}

/// All packets of a reader carry the same manifest and the same initialization segments,
/// and last a second each.
pub proof fn law_packets_share_inits(events: Seq<PipeEvent>, i: int, j: int)
    requires
        PipeState::initial().admits_all(events),
        0 <= i < PipeState::initial().sent(events).len(),
        0 <= j < PipeState::initial().sent(events).len(),
    ensures
        ({
            let sent = PipeState::initial().sent(events);
            &&& sent[i].mpd == sent[j].mpd
            &&& sent[i].audio_init == sent[j].audio_init
            &&& sent[i].video_init == sent[j].video_init
            &&& sent[i].duration == PIPE_TIMESCALE
        }),
{
    lemma_packets_share(events);
}

/// The reader is reading a segment.
pub open spec fn reads_segment(phase: PipePhase) -> bool {
    ||| phase == PipePhase::Header(PipeBox::AudioData)
    ||| phase == PipePhase::Header(PipeBox::VideoData)
    ||| phase == PipePhase::Body(PipeBox::AudioData)
    ||| phase == PipePhase::Body(PipeBox::VideoData)
}

/// The head of a box writes its size in the first four bytes, the first of them weighing
/// most, and its type in the last four.
pub proof fn law_head_of_box(head: Seq<u8>)
    requires
        head.len() == 8,
    ensures
        box_size(head) == 0x100_0000 * head[0] + 0x1_0000 * head[1] + 0x100 * head[2] + head[3],
        box_type(head) == seq![head[4], head[5], head[6], head[7]],
{
    assert(head.take(4) =~= seq![head[0], head[1], head[2], head[3]]);
    law_bytes_weigh(Seq::empty(), head[0], head[1], head[2], head[3]);
    assert(box_type(head) =~= seq![head[4], head[5], head[6], head[7]]);
}

/// A line holds the bytes that were written into it, wherever they stand.
pub proof fn law_line_holds_its_parts(before: Seq<u8>, part: Seq<u8>, after: Seq<u8>)
    ensures
        contains_bytes(before + part + after, part),
        contains_bytes(before, part) ==> before.len() >= part.len(),
{
    let line = before + part + after;
    let i = before.len() as int;
    assert(line.subrange(i, i + part.len()) =~= part);
}

/// The manifest goes from a line with `<MPD` to a later one with `</MPD>`: lines before are
/// passed over, and the lines from there on are kept. An empty line is the end of the
/// input, and an error.
pub proof fn law_line_of_manifest(s: PipeState, line: Vec<u8>)
    requires
        s.phase == PipePhase::MpdLine,
    ensures
        ({
            let (after, step) = s.step(PipeEvent::Line(line));
            let starts = contains_bytes(line@, seq![0x3cu8, 0x4d, 0x50, 0x44]);
            let ends = contains_bytes(line@, seq![0x3cu8, 0x2f, 0x4d, 0x50, 0x44, 0x3e]);
            &&& line@.len() == 0 ==> step == PipeStep::End(
                Some(ErrorText::Other("End of input before finding MPD"@)),
            ) && after.phase == PipePhase::Ended
            &&& line@.len() > 0 && s.reading_mpd && ends ==> step == PipeStep::ReadHeader
                && after.phase == PipePhase::Header(PipeBox::AudioInit)
            &&& line@.len() > 0 && !(s.reading_mpd && ends) ==> step == PipeStep::ReadLine
                && after.phase == PipePhase::MpdLine
            &&& line@.len() > 0 ==> after.reading_mpd == (s.reading_mpd || starts)
            &&& line@.len() > 0 ==> after.mpd == if s.reading_mpd || starts {
                s.mpd + line@
            } else {
                s.mpd
            }
        }),
{
}

/// A box is read where the reader wants one of its type: `moov` before the segments, and
/// `moof` for a segment. It then reads what is left of the box. A box of another type is an
/// error before the segments, and makes the reader wait a tenth of a second after.
pub proof fn law_head_decides(s: PipeState, b: PipeBox, head: Vec<u8>)
    requires
        s.phase == PipePhase::Header(b),
        head@.len() == 8,
    ensures
        ({
            let (after, step) = s.step(PipeEvent::Header(head));
            let wanted = if b == PipeBox::AudioInit || b == PipeBox::VideoInit {
                seq![0x6du8, 0x6f, 0x6f, 0x76]
            } else {
                seq![0x6du8, 0x6f, 0x6f, 0x66]
            };
            let got = seq![head@[4], head@[5], head@[6], head@[7]];
            &&& got == wanted ==> step == PipeStep::ReadBody((box_size(head@) - 8) as nat)
                && after.phase == PipePhase::Body(b) && after.header == head@
            &&& got != wanted && reads_segment(s.phase) ==> step == PipeStep::Wait(100)
                && after.phase == PipePhase::Waiting
            &&& got != wanted && !reads_segment(s.phase) ==> step == PipeStep::End(
                Some(
                    ErrorText::Other(
                        "Expected box type "@ + byte_list(wanted) + ", got "@ + byte_list(got),
                    ),
                ),
            ) && after.phase == PipePhase::Ended
        }),
{
    law_head_of_box(head@);
}

/// After a box the reader reads the next: the two initialization segments, audio first;
/// then, when somebody listens, audio and video of a segment. With the video it sends a
/// packet of the current id, which starts as many seconds after the beginning as its id
/// says and lasts one, with the manifest, the initialization segments and the two boxes.
pub proof fn law_body_goes_on(s: PipeState, b: PipeBox, data: Vec<u8>)
    requires
        s.phase == PipePhase::Body(b),
    ensures
        ({
            let (after, step) = s.step(PipeEvent::Body(data));
            let whole = s.header + data@;
            match b {
                PipeBox::AudioInit => step == PipeStep::ReadHeader && after.phase
                    == PipePhase::Header(PipeBox::VideoInit) && after.audio_init == Some(whole),
                PipeBox::VideoInit => step == PipeStep::CountReceivers && after.phase
                    == PipePhase::Receivers && after.video_init == Some(whole),
                PipeBox::AudioData => step == PipeStep::ReadHeader && after.phase
                    == PipePhase::Header(PipeBox::VideoData) && after.audio == Some(whole),
                PipeBox::VideoData => after.phase == PipePhase::Sending && (
                step matches PipeStep::Send(packet) && packet.packet_id == s.packet_id
                    && packet.timestamp == 30_000 * s.packet_id && packet.duration == 30_000
                    && packet.mpd == s.mpd && packet.audio_init == s.audio_init->0
                    && packet.video_init == s.video_init->0 && packet.audio_data == s.audio->0
                    && packet.video_data == whole),
            }
        }),
{
}

/// A failure to read ends the reader with that failure before the segments. In a segment
/// the end of the input ends it in order, and any other failure makes it wait a tenth of a
/// second.
pub proof fn law_failure_decides(s: PipeState, failure: IoFailure)
    ensures
        ({
            let (after, step) = s.step(PipeEvent::ReadFailed(failure));
            &&& !reads_segment(s.phase) ==> step == PipeStep::End(
                Some(
                    ErrorText::Io {
                        message: failure.message@,
                        unexpected_eof: failure.unexpected_eof,
                    },
                ),
            )
            &&& reads_segment(s.phase) && failure.unexpected_eof ==> step == PipeStep::End(None)
            &&& reads_segment(s.phase) && !failure.unexpected_eof ==> step == PipeStep::Wait(100)
            &&& step is End <==> after.phase == PipePhase::Ended
            &&& step is Wait <==> after.phase == PipePhase::Waiting
        }),
{
}

/// The reader begins with the manifest. It looks for receivers after a wait and after a
/// packet. It reads a segment exactly if there is one, and else waits a second.
pub proof fn law_reader_goes_on(s: PipeState, count: usize)
    ensures
        s.step(PipeEvent::Begin).1 == PipeStep::ReadLine,
        s.step(PipeEvent::Begin).0.phase == PipePhase::MpdLine,
        s.step(PipeEvent::Waited).1 == PipeStep::CountReceivers,
        s.step(PipeEvent::Waited).0.phase == PipePhase::Receivers,
        s.step(PipeEvent::Sent).1 == PipeStep::CountReceivers,
        s.step(PipeEvent::Sent).0.phase == PipePhase::Receivers,
        count > 0 ==> s.step(PipeEvent::Receivers(count)).1 == PipeStep::ReadHeader && s.step(
            PipeEvent::Receivers(count),
        ).0.phase == PipePhase::Header(PipeBox::AudioData),
        count == 0 ==> s.step(PipeEvent::Receivers(count)).1 == PipeStep::Wait(1000) && s.step(
            PipeEvent::Receivers(count),
        ).0.phase == PipePhase::Waiting,
{
}

/// A step changes only what it is about: the manifest with a line, the boxes with the data
/// of theirs, the head with a head, and the id with a packet that is gone.
pub proof fn law_step_leaves_the_rest(s: PipeState, event: PipeEvent)
    requires
        s.wf(),
        s.admits(event),
    ensures
        ({
            let after = s.step(event).0;
            &&& !(event is Line) ==> after.mpd == s.mpd && after.reading_mpd == s.reading_mpd
            &&& s.phase != PipePhase::Body(PipeBox::AudioInit) || !(event is Body)
                ==> after.audio_init == s.audio_init
            &&& s.phase != PipePhase::Body(PipeBox::VideoInit) || !(event is Body)
                ==> after.video_init == s.video_init
            &&& s.phase != PipePhase::Body(PipeBox::AudioData) || !(event is Body) ==> after.audio
                == s.audio
            &&& !(event is Header) ==> after.header == s.header
            &&& after.packet_id == s.packet_id + if event is Sent {
                1int
            } else {
                0
            }
        }),
{
}

/// Each event is expected in the phase that its action leads to.
pub proof fn law_expected_events(s: PipeState, event: PipeEvent)
    ensures
        ({
            let expected = match event {
                PipeEvent::Begin => s.phase == PipePhase::Idle,
                PipeEvent::Line(_) => s.phase == PipePhase::MpdLine,
                PipeEvent::Header(head) => s.phase is Header && head@.len() == 8,
                PipeEvent::Body(data) => s.phase is Body && data@.len() + 8 == box_size(s.header),
                PipeEvent::ReadFailed(_) => s.phase == PipePhase::MpdLine || s.phase is Header
                    || s.phase is Body,
                PipeEvent::Receivers(_) => s.phase == PipePhase::Receivers,
                PipeEvent::Waited => s.phase == PipePhase::Waiting,
                PipeEvent::Sent => s.phase == PipePhase::Sending && s.packet_id < u32::MAX,
            };
            &&& !(event is Header) ==> (s.admits(event) <==> expected)
            &&& event matches PipeEvent::Header(head) ==> {
                &&& s.admits(event) ==> expected
                &&& expected && box_size(head@) >= 8 ==> s.admits(event)
                &&& expected && box_type(head@) != s.phase->Header_0.box_type() ==> s.admits(event)
            }
            &&& PipeState::initial().phase == PipePhase::Idle
            &&& PipeState::initial().packet_id == 0
            &&& PipeState::initial().mpd.len() == 0
            &&& !PipeState::initial().reading_mpd
        }),
{
}

/// Reading a box fails where the input is too short for it, and reads all of it then; and
/// where the box is of another type, of which it reads the head.
pub proof fn law_box_read_fails(kind: Seq<u8>, input: Seq<u8>)
    ensures
        input.len() < 8 ==> box_read(kind, input) == (
            Err::<Seq<u8>, ErrorText>(
                ErrorText::Io { message: "early eof"@, unexpected_eof: true },
            ),
            Seq::<u8>::empty(),
        ),
        input.len() >= 8 ==> {
            let got = seq![input[4], input[5], input[6], input[7]];
            let size = 0x100_0000 * input[0] + 0x1_0000 * input[1] + 0x100 * input[2] + input[3];
            &&& got != kind ==> box_read(kind, input) == (
                Err::<Seq<u8>, ErrorText>(
                    ErrorText::Other(
                        "Expected box type "@ + byte_list(kind) + ", got "@ + byte_list(got),
                    ),
                ),
                input.skip(8),
            )
            &&& got == kind && input.len() < size ==> box_read(kind, input) == (
                Err::<Seq<u8>, ErrorText>(
                    ErrorText::Io { message: "early eof"@, unexpected_eof: true },
                ),
                Seq::<u8>::empty(),
            )
            &&& got == kind && input.len() >= size ==> box_read(kind, input) == (
                Ok::<Seq<u8>, ErrorText>(input.take(size)),
                input.skip(size),
            )
        },
{
    if input.len() >= 8 {
        law_head_of_box(input.take(8));
    }
}

/// What an action says is what it holds.
pub proof fn law_action_says_what_it_holds(action: PipeAction)
    ensures
        match action {
            PipeAction::ReadLine => action@ == PipeStep::ReadLine,
            PipeAction::ReadHeader => action@ == PipeStep::ReadHeader,
            PipeAction::ReadBody(n) => action@ == PipeStep::ReadBody(n as nat),
            PipeAction::CountReceivers => action@ == PipeStep::CountReceivers,
            PipeAction::Wait(millis) => action@ == PipeStep::Wait(millis),
            PipeAction::Send(packet) => action@ == PipeStep::Send(packet@),
            PipeAction::End(Ok(_)) => action@ == PipeStep::End(None),
            PipeAction::End(Err(e)) => action@ == PipeStep::End(Some(e@)),
        },
{
}

/// A line that holds a part is something, the part, and something.
pub proof fn law_part_stands_in_line(line: Seq<u8>, part: Seq<u8>) -> (i: int)
    requires
        contains_bytes(line, part),
    ensures
        0 <= i <= line.len() - part.len(),
        line == line.take(i) + part + line.skip(i + part.len()),
{
    let i = choose|i: int|
        0 <= i && i + part.len() <= line.len() && #[trigger] line.subrange(i, i + part.len())
            == part;
    assert(line =~= line.take(i) + line.subrange(i, i + part.len()) + line.skip(i + part.len()));
    i
}

} // verus!

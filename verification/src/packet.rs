//! Media packets and their form on the wire.
//!
//! A packet carries one segment of audio and video together with all that a player
//! needs to start with it. On the wire stand the packet id (four bytes), the timestamp
//! (eight) and the duration (four), and then the five fields of data in the order of the
//! struct, each after its length (eight bytes). All numbers are big-endian.

use vstd::prelude::*;
use bytes::Bytes;
use crate::error::VqdError;

verus! {

/// The shared byte buffer of the crate `bytes`.
#[verifier::external_type_specification]
#[verifier::external_body]
pub struct ExBytes(bytes::Bytes);

/// The bytes that a buffer holds.
pub uninterp spec fn contents(b: Bytes) -> Seq<u8>;

/// `Bytes::from` on a `Vec<u8>`: the buffer holds the bytes of the vector.
#[verifier::external_body]
pub(crate) fn bytes_from_vec(v: Vec<u8>) -> (b: Bytes)
    ensures
        contents(b) == v@,
{
    Bytes::from(v)
}

/// `Bytes::as_ref`: the slice of all bytes that the buffer holds.
#[verifier::external_body]
pub(crate) fn bytes_as_slice(b: &Bytes) -> (s: &[u8])
    ensures
        s@ == contents(*b),
{
    b.as_ref()
}

/// `Bytes::clone`: the clone holds the same bytes.
#[verifier::external_body]
pub(crate) fn bytes_clone(b: &Bytes) -> (c: Bytes)
    ensures
        contents(c) == contents(*b),
{
    b.clone()
}

/// A segment of audio and video, with the manifest and the initialization segments.
#[derive(Debug)]
pub struct WebTransportMediaPacket {
    pub packet_id: u32,
    pub timestamp: u64,
    pub duration: u32,
    pub mpd: Bytes,
    pub audio_init: Bytes,
    pub video_init: Bytes,
    pub audio_data: Bytes,
    pub video_data: Bytes,
}

/// What a packet says: its numbers and the bytes of its fields.
#[verifier::ext_equal]
pub struct MediaPacket {
    pub packet_id: u32,
    pub timestamp: u64,
    pub duration: u32,
    pub mpd: Seq<u8>,
    pub audio_init: Seq<u8>,
    pub video_init: Seq<u8>,
    pub audio_data: Seq<u8>,
    pub video_data: Seq<u8>,
}

impl View for WebTransportMediaPacket {
    type V = MediaPacket;

    open spec fn view(&self) -> MediaPacket {
        MediaPacket {
            packet_id: self.packet_id,
            timestamp: self.timestamp,
            duration: self.duration,
            mpd: contents(self.mpd),
            audio_init: contents(self.audio_init),
            video_init: contents(self.video_init),
            audio_data: contents(self.audio_data),
            video_data: contents(self.video_data),
        }
    }
}

impl Clone for WebTransportMediaPacket {
    fn clone(&self) -> (r: Self)
        ensures
            r@ == self@,
    {
        WebTransportMediaPacket {
            packet_id: self.packet_id,
            timestamp: self.timestamp,
            duration: self.duration,
            mpd: bytes_clone(&self.mpd),
            audio_init: bytes_clone(&self.audio_init),
            video_init: bytes_clone(&self.video_init),
            audio_data: bytes_clone(&self.audio_data),
            video_data: bytes_clone(&self.video_data),
        }
    }
}

/// The last `width` bytes of `n`, most significant first.
pub open spec fn big_endian(n: nat, width: nat) -> Seq<u8>
    decreases width,
{
    if width == 0 {
        Seq::empty()
    } else {
        big_endian(n / 256, (width - 1) as nat).push((n % 256) as u8)
    }
}

/// The number whose bytes are `s`, most significant first.
pub open spec fn from_big_endian(s: Seq<u8>) -> nat
    decreases s.len(),
{
    if s.len() == 0 {
        0
    } else {
        from_big_endian(s.drop_last()) * 256 + s.last() as nat
    }
}

/// A field of data on the wire: its length and its bytes.
pub open spec fn field(data: Seq<u8>) -> Seq<u8> {
    big_endian(data.len(), 8) + data
}

impl MediaPacket {
    /// The fields of data on the wire.
    pub open spec fn fields(self) -> Seq<u8> {
        field(self.mpd) + (field(self.audio_init) + (field(self.video_init) + (field(
            self.audio_data,
        ) + field(self.video_data))))
    }

    /// The packet on the wire.
    pub open spec fn wire(self) -> Seq<u8> {
        big_endian(self.packet_id as nat, 4) + (big_endian(self.timestamp as nat, 8) + (big_endian(
            self.duration as nat,
            4,
        ) + self.fields()))
    }

    /// The lengths of the fields are machine numbers.
    pub open spec fn lengths_fit(self) -> bool {
        &&& self.mpd.len() <= u64::MAX
        &&& self.audio_init.len() <= u64::MAX
        &&& self.video_init.len() <= u64::MAX
        &&& self.audio_data.len() <= u64::MAX
        &&& self.video_data.len() <= u64::MAX
    }
}

/// The message of the error for bytes that are no packet.
pub const MALFORMED: &'static str = "Malformed media packet";

/// Appends the last `width` bytes of `n`.
fn push_big_endian(out: &mut Vec<u8>, n: u64, width: u8)
    ensures
        final(out)@ == old(out)@ + big_endian(n as nat, width as nat),
    decreases width,
{
    if width > 0 {
        push_big_endian(out, n / 256, width - 1);
        out.push((n % 256) as u8);
    }
    assert(out@ =~= old(out)@ + big_endian(n as nat, width as nat));
}

/// Appends a field of data.
fn push_field(out: &mut Vec<u8>, data: &Bytes)
    ensures
        final(out)@ == old(out)@ + field(contents(*data)),
{
    let slice: &[u8] = bytes_as_slice(data);
    push_big_endian(out, slice.len() as u64, 8);
    out.extend_from_slice(slice);
    assert(out@ =~= old(out)@ + field(contents(*data)));
}

/// The packet on the wire.
pub fn serialize_media_packet(packet: &WebTransportMediaPacket) -> (data: Bytes)
    ensures
        contents(data) == packet@.wire(),
{
    let mut out: Vec<u8> = Vec::new();
    push_big_endian(&mut out, packet.packet_id as u64, 4);
    push_big_endian(&mut out, packet.timestamp, 8);
    push_big_endian(&mut out, packet.duration as u64, 4);
    push_field(&mut out, &packet.mpd);
    push_field(&mut out, &packet.audio_init);
    push_field(&mut out, &packet.video_init);
    push_field(&mut out, &packet.audio_data);
    push_field(&mut out, &packet.video_data);
    assert(out@ =~= packet@.wire());
    bytes_from_vec(out)
}

/// `256^width`.
pub open spec fn limit(width: nat) -> nat
    decreases width,
{
    if width == 0 {
        1
    } else {
        256 * limit((width - 1) as nat)
    }
}

/// How many numbers four and eight bytes can write.
pub proof fn lemma_limits()
    ensures
        limit(4) == 0x1_0000_0000,
        limit(8) == 0x1_0000_0000_0000_0000,
{
    reveal_with_fuel(limit, 9);
}

/// The bytes of a number are as many as they are to be.
pub proof fn lemma_big_endian_len(n: nat, width: nat)
    ensures
        big_endian(n, width).len() == width,
    decreases width,
{
    if width > 0 {
        lemma_big_endian_len(n / 256, (width - 1) as nat);
    }
}

/// The bytes of a number that they can write give it back.
pub proof fn lemma_from_big_endian(n: nat, width: nat)
    requires
        n < limit(width),
    ensures
        from_big_endian(big_endian(n, width)) == n,
    decreases width,
{
    if width > 0 {
        lemma_from_big_endian(n / 256, (width - 1) as nat);
        assert(big_endian(n, width).drop_last() =~= big_endian(n / 256, (width - 1) as nat));
    }
}

proof fn lemma_to_big_endian(s: Seq<u8>)
    ensures
        big_endian(from_big_endian(s), s.len()) == s,
        from_big_endian(s) < limit(s.len()),
    decreases s.len(),
{
    if s.len() > 0 {
        lemma_to_big_endian(s.drop_last());
        assert(big_endian(from_big_endian(s), s.len()) =~= s);
    } else {
        assert(big_endian(from_big_endian(s), s.len()) =~= s);
    }
}

/// The field at the front of `s`, and what comes after it.
spec fn split_field(s: Seq<u8>) -> Option<(Seq<u8>, Seq<u8>)> {
    let n = from_big_endian(s.take(8));
    if s.len() < 8 || s.len() - 8 < n {
        None
    } else {
        Some((s.subrange(8, 8 + n as int), s.skip(8 + n as int)))
    }
}

proof fn lemma_split_joined(data: Seq<u8>, rest: Seq<u8>)
    requires
        data.len() <= u64::MAX,
    ensures
        split_field(field(data) + rest) == Some((data, rest)),
{
    lemma_limits();
    lemma_big_endian_len(data.len(), 8);
    lemma_from_big_endian(data.len(), 8);
    let s = field(data) + rest;
    assert(s.take(8) =~= big_endian(data.len(), 8));
    assert(s.subrange(8, 8 + data.len() as int) =~= data);
    assert(s.skip(8 + data.len() as int) =~= rest);
}

proof fn lemma_join_split(s: Seq<u8>)
    ensures
        split_field(s) matches Some((data, rest)) ==> s == field(data) + rest,
{
    if let Some((data, rest)) = split_field(s) {
        lemma_to_big_endian(s.take(8));
        assert(s =~= field(data) + rest);
    }
}

/// The bytes `s` as a packet.
spec fn unwire(s: Seq<u8>) -> Option<MediaPacket> {
    if s.len() < 16 {
        None
    } else {
        match split_field(s.skip(16)) {
            None => None,
            Some((mpd, s1)) => match split_field(s1) {
                None => None,
                Some((audio_init, s2)) => match split_field(s2) {
                    None => None,
                    Some((video_init, s3)) => match split_field(s3) {
                        None => None,
                        Some((audio_data, s4)) => match split_field(s4) {
                            None => None,
                            Some((video_data, s5)) => if s5.len() > 0 {
                                None
                            } else {
                                Some(
                                    MediaPacket {
                                        packet_id: from_big_endian(s.take(4)) as u32,
                                        timestamp: from_big_endian(s.subrange(4, 12)) as u64,
                                        duration: from_big_endian(s.subrange(12, 16)) as u32,
                                        mpd,
                                        audio_init,
                                        video_init,
                                        audio_data,
                                        video_data,
                                    },
                                )
                            },
                        },
                    },
                },
            },
        }
    }
}

proof fn lemma_unwire_wire(p: MediaPacket)
    requires
        p.lengths_fit(),
    ensures
        unwire(p.wire()) == Some(p),
{
    lemma_limits();
    let s = p.wire();
    lemma_big_endian_len(p.packet_id as nat, 4);
    lemma_big_endian_len(p.timestamp as nat, 8);
    lemma_big_endian_len(p.duration as nat, 4);
    lemma_from_big_endian(p.packet_id as nat, 4);
    lemma_from_big_endian(p.timestamp as nat, 8);
    lemma_from_big_endian(p.duration as nat, 4);
    assert(s.take(4) =~= big_endian(p.packet_id as nat, 4));
    assert(s.subrange(4, 12) =~= big_endian(p.timestamp as nat, 8));
    assert(s.subrange(12, 16) =~= big_endian(p.duration as nat, 4));
    assert(s.skip(16) =~= p.fields());
    let s4 = field(p.video_data);
    let s3 = field(p.audio_data) + s4;
    let s2 = field(p.video_init) + s3;
    let s1 = field(p.audio_init) + s2;
    lemma_split_joined(p.mpd, s1);
    lemma_split_joined(p.audio_init, s2);
    lemma_split_joined(p.video_init, s3);
    lemma_split_joined(p.audio_data, s4);
    lemma_split_joined(p.video_data, Seq::empty());
    assert(s4 + Seq::<u8>::empty() =~= s4);
}

proof fn lemma_head(s: Seq<u8>)
    requires
        s.len() >= 16,
    ensures
        s == s.take(4) + (s.subrange(4, 12) + (s.subrange(12, 16) + s.skip(16))),
{
}

proof fn lemma_wire_unwire(s: Seq<u8>)
    ensures
        unwire(s) matches Some(p) ==> p.wire() == s,
{
    if let Some(p) = unwire(s) {
        let s0 = s.skip(16);
        let s1 = split_field(s0).unwrap().1;
        let s2 = split_field(s1).unwrap().1;
        let s3 = split_field(s2).unwrap().1;
        let s4 = split_field(s3).unwrap().1;
        assert(s0 == p.fields()) by {
            lemma_join_split(s0);
            lemma_join_split(s1);
            lemma_join_split(s2);
            lemma_join_split(s3);
            lemma_join_split(s4);
            assert(s4 =~= field(p.video_data));
        }
        lemma_head(s);
        assert(s.take(4) == big_endian(p.packet_id as nat, 4)) by {
            lemma_limits();
            lemma_to_big_endian(s.take(4));
        }
        assert(s.subrange(4, 12) == big_endian(p.timestamp as nat, 8)) by {
            lemma_limits();
            lemma_to_big_endian(s.subrange(4, 12));
        }
        assert(s.subrange(12, 16) == big_endian(p.duration as nat, 4)) by {
            lemma_limits();
            lemma_to_big_endian(s.subrange(12, 16));
        }
    }
}

/// A packet whose wire form is a sequence of machine size has fields of machine size.
proof fn lemma_lengths(p: MediaPacket)
    requires
        p.wire().len() <= u64::MAX,
    ensures
        p.lengths_fit(),
{
}

/// Reads `width` bytes at `at` as a number.
pub fn read_big_endian(data: &[u8], at: usize, width: usize) -> (n: u64)
    requires
        at + width <= data@.len(),
        width <= 8,
    ensures
        n == from_big_endian(data@.subrange(at as int, at + width)),
        n < limit(width as nat),
{
    let mut n: u64 = 0;
    let mut i: usize = 0;
    let ghost bytes = data@.subrange(at as int, at + width);
    assert(bytes.take(0) =~= Seq::<u8>::empty());
    while i < width
        invariant
            i <= width <= 8,
            at + width <= data@.len(),
            bytes == data@.subrange(at as int, at + width),
            n == from_big_endian(bytes.take(i as int)),
        decreases width - i,
    {
        proof {
            lemma_limits();
            lemma_to_big_endian(bytes.take(i as int));
            lemma_limit_grows(i as nat, 7);
            assert(limit(8) == 256 * limit(7));
            assert(bytes.take(i + 1).drop_last() =~= bytes.take(i as int));
            assert(at + i < data.len());
        }
        n = n * 256 + data[at + i] as u64;
        i = i + 1;
    }
    proof {
        assert(bytes.take(width as int) =~= bytes);
        lemma_to_big_endian(bytes);
    }
    n
}

proof fn lemma_limit_grows(a: nat, b: nat)
    requires
        a <= b,
    ensures
        limit(a) <= limit(b),
    decreases b - a,
{
    if a < b {
        lemma_limit_grows(a, (b - 1) as nat);
    }
}

/// Reads the field at `at`, and says where the next one begins.
fn read_field(data: &[u8], at: usize) -> (r: Option<(Bytes, usize)>)
    requires
        at <= data@.len(),
    ensures
        match split_field(data@.skip(at as int)) {
            None => r is None,
            Some((bytes, rest)) => r matches Some((b, next)) && contents(b) == bytes && next
                <= data@.len() && data@.skip(next as int) == rest,
        },
{
    let ghost s = data@.skip(at as int);
    if data.len() - at < 8 {
        return None;
    }
    let n: u64 = read_big_endian(data, at, 8);
    assert(data@.subrange(at as int, at + 8) =~= s.take(8));
    let left: usize = data.len() - at - 8;
    if (left as u64) < n {
        return None;
    }
    let start: usize = at + 8;
    let next: usize = start + n as usize;
    let mut bytes: Vec<u8> = Vec::new();
    bytes.extend_from_slice(vstd::slice::slice_subrange(data, start, next));
    assert(bytes@ =~= s.subrange(8, 8 + n as int));
    assert(data@.skip(next as int) =~= s.skip(8 + n as int));
    Some((bytes_from_vec(bytes), next))
}

/// The bytes as a packet, where they are the whole wire form of one.
fn read_packet(data: &[u8]) -> (r: Option<WebTransportMediaPacket>)
    ensures
        match unwire(data@) {
            None => r is None,
            Some(p) => r matches Some(packet) && packet@ == p,
        },
{
    if data.len() < 16 {
        return None;
    }
    proof {
        lemma_limits();
        assert(data@.subrange(0, 4) =~= data@.take(4));
    }
    let packet_id: u32 = read_big_endian(data, 0, 4) as u32;
    let timestamp: u64 = read_big_endian(data, 4, 8);
    let duration: u32 = read_big_endian(data, 12, 4) as u32;
    let (mpd, at1) = match read_field(data, 16) {
        Some(x) => x,
        None => return None,
    };
    let (audio_init, at2) = match read_field(data, at1) {
        Some(x) => x,
        None => return None,
    };
    let (video_init, at3) = match read_field(data, at2) {
        Some(x) => x,
        None => return None,
    };
    let (audio_data, at4) = match read_field(data, at3) {
        Some(x) => x,
        None => return None,
    };
    let (video_data, at5) = match read_field(data, at4) {
        Some(x) => x,
        None => return None,
    };
    if at5 < data.len() {
        return None;
    }
    Some(
        WebTransportMediaPacket {
            packet_id,
            timestamp,
            duration,
            mpd,
            audio_init,
            video_init,
            audio_data,
            video_data,
        },
    )
}

impl WebTransportMediaPacket {
    /// The packet whose wire form `data` is. Bytes that are not the whole wire form of a
    /// packet are an error.
    pub fn parse(data: &[u8]) -> (r: Result<WebTransportMediaPacket, VqdError>)
        ensures
            forall|p: MediaPacket| #[trigger]
                p.wire() == data@ ==> (r matches Ok(packet) && packet@ == p),
            match r {
                Ok(packet) => packet@.wire() == data@,
                Err(e) => e.is_other(MALFORMED@),
            },
    {
        proof {
            lemma_wire_unwire(data@);
            assert(data@.len() == data.len());
            assert forall|p: MediaPacket| #[trigger] p.wire() == data@ implies unwire(data@)
                == Some(p) by {
                lemma_lengths(p);
                lemma_unwire_wire(p);
            }
        }
        match read_packet(data) {
            Some(packet) => Ok(packet),
            None => Err(VqdError::Other(MALFORMED.to_owned())),
        }
    }
}

/// No two packets have the same wire form.
pub proof fn law_wire_identifies(p: MediaPacket, q: MediaPacket)
    requires
        p.lengths_fit(),
        q.lengths_fit(),
        p.wire() == q.wire(),
    ensures
        p == q,
{
    lemma_unwire_wire(p);
    lemma_unwire_wire(q);
}

/// The bytes of a number weigh 256 times as much as those that follow them.
pub proof fn law_bytes_weigh(s: Seq<u8>, a: u8, b: u8, c: u8, d: u8)
    ensures
        from_big_endian(Seq::<u8>::empty()) == 0,
        from_big_endian(s.push(a)) == 256 * from_big_endian(s) + a,
        from_big_endian(seq![a, b, c, d]) == 0x100_0000 * a + 0x1_0000 * b + 0x100 * c + d,
{
    assert(s.push(a).drop_last() =~= s);
    let four = seq![a, b, c, d];
    assert(four.drop_last() =~= seq![a, b, c]);
    assert(seq![a, b, c].drop_last() =~= seq![a, b]);
    assert(seq![a, b].drop_last() =~= seq![a]);
    assert(seq![a].drop_last() =~= Seq::<u8>::empty());
    assert(from_big_endian(Seq::<u8>::empty()) == 0);
    assert(from_big_endian(seq![a]) == a);
    assert(from_big_endian(seq![a, b]) == 256 * a + b);
    assert(from_big_endian(seq![a, b, c]) == 0x1_0000 * a + 0x100 * b + c);
}

/// Writing a number in bytes and reading the bytes gives the number back, and so does
/// reading bytes and writing the number.
pub proof fn law_numbers_come_back(n: u64, s: Seq<u8>)
    ensures
        big_endian(n as nat, 8).len() == 8,
        from_big_endian(big_endian(n as nat, 8)) == n,
        n <= u32::MAX ==> big_endian(n as nat, 4).len() == 4 && from_big_endian(
            big_endian(n as nat, 4),
        ) == n,
        big_endian(from_big_endian(s), s.len()) == s,
{
    lemma_limits();
    lemma_big_endian_len(n as nat, 8);
    lemma_big_endian_len(n as nat, 4);
    lemma_from_big_endian(n as nat, 8);
    if n <= u32::MAX {
        lemma_from_big_endian(n as nat, 4);
    }
    lemma_to_big_endian(s);
}

/// `data` stands in `wire` at `at`, after its length in eight bytes.
pub open spec fn field_stands_at(wire: Seq<u8>, at: int, data: Seq<u8>) -> bool {
    &&& 0 <= at
    &&& at + 8 + data.len() <= wire.len()
    &&& from_big_endian(wire.subrange(at, at + 8)) == data.len()
    &&& wire.subrange(at + 8, at + 8 + data.len()) == data
}

proof fn lemma_field_stands(front: Seq<u8>, data: Seq<u8>, back: Seq<u8>)
    requires
        data.len() <= u64::MAX,
    ensures
        field(data).len() == 8 + data.len(),
        field_stands_at(front + (field(data) + back), front.len() as int, data),
{
    lemma_limits();
    lemma_big_endian_len(data.len(), 8);
    lemma_from_big_endian(data.len(), 8);
    let wire = front + (field(data) + back);
    let at = front.len() as int;
    assert(wire.subrange(at, at + 8) =~= big_endian(data.len(), 8));
    assert(wire.subrange(at + 8, at + 8 + data.len()) =~= data);
}

/// On the wire stand the id, the timestamp and the duration, in four, eight and four bytes,
/// and then the manifest, the two initialization segments and the two segments, audio
/// before video, each after its length in eight bytes, and nothing else.
pub proof fn law_wire_layout(p: MediaPacket)
    requires
        p.lengths_fit(),
    ensures
        ({
            let w = p.wire();
            let at1 = 16 + 8 + p.mpd.len() as int;
            let at2 = at1 + 8 + p.audio_init.len();
            let at3 = at2 + 8 + p.video_init.len();
            let at4 = at3 + 8 + p.audio_data.len();
            &&& w.len() == at4 + 8 + p.video_data.len()
            &&& from_big_endian(w.subrange(0, 4)) == p.packet_id
            &&& from_big_endian(w.subrange(4, 12)) == p.timestamp
            &&& from_big_endian(w.subrange(12, 16)) == p.duration
            &&& field_stands_at(w, 16, p.mpd)
            &&& field_stands_at(w, at1, p.audio_init)
            &&& field_stands_at(w, at2, p.video_init)
            &&& field_stands_at(w, at3, p.audio_data)
            &&& field_stands_at(w, at4, p.video_data)
        }),
{
    let w = p.wire();
    let id = big_endian(p.packet_id as nat, 4);
    let ts = big_endian(p.timestamp as nat, 8);
    let du = big_endian(p.duration as nat, 4);
    law_numbers_come_back(p.packet_id as u64, Seq::empty());
    law_numbers_come_back(p.timestamp, Seq::empty());
    law_numbers_come_back(p.duration as u64, Seq::empty());
    assert(w.subrange(0, 4) =~= id);
    assert(w.subrange(4, 12) =~= ts);
    assert(w.subrange(12, 16) =~= du);
    let f4 = field(p.video_data);
    let f3 = field(p.audio_data);
    let f2 = field(p.video_init);
    let f1 = field(p.audio_init);
    let f0 = field(p.mpd);
    let h0 = id + ts + du;
    let h1 = h0 + f0;
    let h2 = h1 + f1;
    let h3 = h2 + f2;
    let h4 = h3 + f3;
    assert(w =~= h0 + (f0 + (f1 + (f2 + (f3 + f4)))));
    lemma_field_stands(h0, p.mpd, f1 + (f2 + (f3 + f4)));
    assert(w =~= h1 + (f1 + (f2 + (f3 + f4))));
    lemma_field_stands(h1, p.audio_init, f2 + (f3 + f4));
    assert(w =~= h2 + (f2 + (f3 + f4)));
    lemma_field_stands(h2, p.video_init, f3 + f4);
    assert(w =~= h3 + (f3 + f4));
    lemma_field_stands(h3, p.audio_data, f4);
    assert(w =~= h4 + (f4 + Seq::<u8>::empty()));
    lemma_field_stands(h4, p.video_data, Seq::empty());
}

/// What a packet says is what its fields hold.
pub proof fn law_packet_says_its_fields(packet: WebTransportMediaPacket)
    ensures
        packet@.packet_id == packet.packet_id,
        packet@.timestamp == packet.timestamp,
        packet@.duration == packet.duration,
        packet@.mpd == contents(packet.mpd),
        packet@.audio_init == contents(packet.audio_init),
        packet@.video_init == contents(packet.video_init),
        packet@.audio_data == contents(packet.audio_data),
        packet@.video_data == contents(packet.video_data),
{
}

} // verus!

//! The `.ttyrec` recording format: 12-byte frame headers (timestamp and
//! payload length, little endian) followed by the raw payload.
//!
//! The seconds field carries 44 bits: the low 32 bits in the first word and
//! the high 12 bits in the top of the microseconds word.
use vstd::prelude::*;

use crate::clock;

verus! {

pub const HEADER_SIZE: usize = 12;

/// 24-bit limit (16,777,215 bytes).
pub const MAX_RECORD_LEN: u32 = 0x00FF_FFFF;

#[verifier::external_type_specification]
#[verifier::external_body]
pub struct ExIoError(std::io::Error);

#[derive(Debug, PartialEq, Eq)]
pub enum HeaderError {
    InvalidUsec(u32),
    InvalidLength(u32),
    Io(String),
}

/// A 12-byte .ttyrec frame header containing a timestamp and payload length.
#[derive(Debug, Clone, Copy, PartialEq, Eq, Structural)]
pub struct Header {
    pub sec: u64,
    pub usec: u32,
    pub len: u32,
}

/// The constraints that `Header::new` and `Header::deserialize` enforce.
pub open spec fn valid_fields(usec: u32, len: u32) -> bool {
    usec <= 999_999 && len <= MAX_RECORD_LEN
}

/// A header whose every field survives serialization.
pub open spec fn encodable(h: Header) -> bool {
    h.sec < 0x1000_0000_0000 && valid_fields(h.usec, h.len)
}

pub open spec fn spec_new(sec: u64, usec: u32, len: u32) -> Result<Header, HeaderError> {
    if usec > 999_999 {
        Err(HeaderError::InvalidUsec(usec))
    } else if len > MAX_RECORD_LEN {
        Err(HeaderError::InvalidLength(len))
    } else {
        Ok(Header { sec, usec, len })
    }
}

pub open spec fn le_bytes(x: u32) -> Seq<u8> {
    seq![(x & 0xff) as u8, ((x >> 8u32) & 0xff) as u8, ((x >> 16u32) & 0xff) as u8, ((x >> 24u32) & 0xff) as u8]
}

pub open spec fn le_u32(b0: u8, b1: u8, b2: u8, b3: u8) -> u32 {
    (b0 as u32) | ((b1 as u32) << 8u32) | ((b2 as u32) << 16u32) | ((b3 as u32) << 24u32)
}

pub open spec fn sec_low_word(sec: u64) -> u32 {
    (sec & 0xFFFF_FFFF) as u32
}

pub open spec fn usec_word(sec: u64, usec: u32) -> u32 {
    (usec & 0x000F_FFFF) | ((((sec >> 32u64) & 0x0FFF) as u32) << 20u32)
}

pub open spec fn len_word(len: u32) -> u32 {
    len & 0x00FF_FFFF
}

/// The 12 bytes that `serialize` writes for `h`.
pub open spec fn header_bytes(h: Header) -> Seq<u8> {
    le_bytes(sec_low_word(h.sec)) + le_bytes(usec_word(h.sec, h.usec)) + le_bytes(len_word(h.len))
}

pub open spec fn word_at(b: Seq<u8>, i: int) -> u32 {
    le_u32(b[i], b[i + 1], b[i + 2], b[i + 3])
}

pub open spec fn decoded_sec(b: Seq<u8>) -> u64 {
    (word_at(b, 0) as u64) | ((((word_at(b, 4) >> 20u32) & 0x0FFF) as u64) << 32u64)
}

pub open spec fn decoded_usec(b: Seq<u8>) -> u32 {
    word_at(b, 4) & 0x000F_FFFF
}

pub open spec fn decoded_len(b: Seq<u8>) -> u32 {
    word_at(b, 8) & 0x00FF_FFFF
}

/// What `deserialize` makes of 12 header bytes.
pub open spec fn spec_deserialize(b: Seq<u8>) -> Result<Header, HeaderError> {
    spec_new(decoded_sec(b), decoded_usec(b), decoded_len(b))
}

impl Header {
    pub fn new(sec: u64, usec: u32, len: u32) -> (r: Result<Self, HeaderError>)
        ensures
            r == spec_new(sec, usec, len),
    {
        if usec > 999_999 {
            return Err(HeaderError::InvalidUsec(usec));
        }
        if len > MAX_RECORD_LEN {
            return Err(HeaderError::InvalidLength(len));
        }
        Ok(Self { sec, usec, len })
    }

    /// A header stamped with the current wall-clock time. A clock before the
    /// epoch reads as time zero.
    pub fn now(len: u32) -> (r: Result<Self, HeaderError>)
        ensures
            r is Ok <==> len <= MAX_RECORD_LEN,
            r matches Ok(h) ==> h.len == len && h.usec <= 999_999,
            r matches Err(e) ==> e == HeaderError::InvalidLength(len),
    {
        let (sec, usec) = match clock::epoch_elapsed() {
            Ok(d) => (clock::duration_as_secs(&d), clock::duration_subsec_micros(&d)),
            Err(_) => (0, 0),
        };
        Self::new(sec, usec, len)
    }

    pub fn serialize(&self) -> (buf: [u8; HEADER_SIZE])
        ensures
            buf@ == header_bytes(*self),
    {
        let sec_low = (self.sec & 0xFFFF_FFFF) as u32;
        let sec_high = ((self.sec >> 32) & 0x0FFF) as u32;
        let packed_usec = (self.usec & 0x000F_FFFF) | (sec_high << 20);
        let packed_len = self.len & 0x00FF_FFFF;
        let buf = [
            (sec_low & 0xff) as u8,
            ((sec_low >> 8) & 0xff) as u8,
            ((sec_low >> 16) & 0xff) as u8,
            ((sec_low >> 24) & 0xff) as u8,
            (packed_usec & 0xff) as u8,
            ((packed_usec >> 8) & 0xff) as u8,
            ((packed_usec >> 16) & 0xff) as u8,
            ((packed_usec >> 24) & 0xff) as u8,
            (packed_len & 0xff) as u8,
            ((packed_len >> 8) & 0xff) as u8,
            ((packed_len >> 16) & 0xff) as u8,
            ((packed_len >> 24) & 0xff) as u8,
        ];
        assert(buf@ =~= header_bytes(*self));
        buf
    }

    pub fn deserialize(buf: &[u8; HEADER_SIZE]) -> (r: Result<Self, HeaderError>)
        ensures
            r == spec_deserialize(buf@),
    {
        let sec_low = (buf[0] as u32) | ((buf[1] as u32) << 8) | ((buf[2] as u32) << 16) | ((
        buf[3] as u32) << 24);
        let raw_usec = (buf[4] as u32) | ((buf[5] as u32) << 8) | ((buf[6] as u32) << 16) | ((
        buf[7] as u32) << 24);
        let raw_len = (buf[8] as u32) | ((buf[9] as u32) << 8) | ((buf[10] as u32) << 16) | ((
        buf[11] as u32) << 24);
        let sec_high = ((raw_usec >> 20) & 0x0FFF) as u64;
        let sec = (sec_low as u64) | (sec_high << 32);
        let usec = raw_usec & 0x000F_FFFF;
        let len = raw_len & 0x00FF_FFFF;
        Self::new(sec, usec, len)
    }
}

proof fn lemma_le_roundtrip(x: u32)
    ensures
        le_u32(le_bytes(x)[0], le_bytes(x)[1], le_bytes(x)[2], le_bytes(x)[3]) == x,
{
    let b0 = (x & 0xff) as u8;
    let b1 = ((x >> 8u32) & 0xff) as u8;
    let b2 = ((x >> 16u32) & 0xff) as u8;
    let b3 = ((x >> 24u32) & 0xff) as u8;
    assert((b0 as u32) | ((b1 as u32) << 8u32) | ((b2 as u32) << 16u32) | ((b3 as u32) << 24u32)
        == x) by (bit_vector)
        requires
            b0 == (x & 0xff) as u8,
            b1 == ((x >> 8u32) & 0xff) as u8,
            b2 == ((x >> 16u32) & 0xff) as u8,
            b3 == ((x >> 24u32) & 0xff) as u8,
    ;
}

/// Serializing an encodable header and reading the bytes back gives the
/// header back: the 44-bit seconds, the microseconds and the length all
/// survive the packing.
pub proof fn lemma_header_roundtrip(h: Header)
    requires
        encodable(h),
    ensures
        header_bytes(h).len() == HEADER_SIZE,
        spec_deserialize(header_bytes(h)) == Ok::<Header, HeaderError>(h),
{
    let b = header_bytes(h);
    let lo = sec_low_word(h.sec);
    let uw = usec_word(h.sec, h.usec);
    let lw = len_word(h.len);
    lemma_le_roundtrip(lo);
    lemma_le_roundtrip(uw);
    lemma_le_roundtrip(lw);
    assert(word_at(b, 0) == lo);
    assert(word_at(b, 4) == uw);
    assert(word_at(b, 8) == lw);
    let sec = h.sec;
    let usec = h.usec;
    let len = h.len;
    assert(((sec & 0xFFFF_FFFF) as u32 as u64) | (((((((usec & 0x000F_FFFF) | ((((sec >> 32u64)
        & 0x0FFF) as u32) << 20u32)) >> 20u32) & 0x0FFF) as u64) << 32u64)) == sec)
        by (bit_vector)
        requires
            sec < 0x1000_0000_0000u64,
    ;
    assert(((usec & 0x000F_FFFF) | ((((sec >> 32u64) & 0x0FFF) as u32) << 20u32)) & 0x000F_FFFF
        == usec) by (bit_vector)
        requires
            usec <= 999_999u32,
    ;
    assert(len & 0x00FF_FFFF & 0x00FF_FFFF == len) by (bit_vector)
        requires
            len <= 0x00FF_FFFFu32,
    ;
}

#[derive(Debug)]
pub enum FrameError {
    Header(HeaderError),
    Io(std::io::Error),
    IncompleteHeader(usize),
    IncompletePayload { expected: u32, got: usize },
}

/// A complete record frame containing a validated header and raw payload data.
#[derive(Debug, Clone, PartialEq, Eq)]
pub struct Frame {
    pub header: Header,
    pub data: Vec<u8>,
}

/// The bytes of a frame on the wire.
pub open spec fn frame_bytes(h: Header, data: Seq<u8>) -> Seq<u8> {
    header_bytes(h) + data
}

/// What `read_header` makes of a stream whose remaining content is `s`.
pub open spec fn spec_read_header(s: Seq<u8>) -> Option<Result<Header, HeaderError>> {
    if s.len() < HEADER_SIZE {
        None
    } else {
        Some(spec_deserialize(s.take(HEADER_SIZE as int)))
    }
}

fn header_prefix(input: &[u8], start: usize) -> (buf: [u8; HEADER_SIZE])
    requires
        start + HEADER_SIZE <= input@.len(),
    ensures
        buf@ == input@.subrange(start as int, start + HEADER_SIZE),
{
    let buf = [
        input[start],
        input[start + 1],
        input[start + 2],
        input[start + 3],
        input[start + 4],
        input[start + 5],
        input[start + 6],
        input[start + 7],
        input[start + 8],
        input[start + 9],
        input[start + 10],
        input[start + 11],
    ];
    assert(buf@ =~= input@.subrange(start as int, start + HEADER_SIZE));
    buf
}

/// Reads one header from the front of a stream whose remaining content is
/// `input`. A stream that ends before 12 bytes gives `Ok(None)`.
pub fn read_header(input: &[u8]) -> (r: Result<Option<Header>, FrameError>)
    ensures
        match spec_read_header(input@) {
            None => r matches Ok(None),
            Some(Ok(h)) => r == Ok::<Option<Header>, FrameError>(Some(h)),
            Some(Err(e)) => r matches Err(FrameError::Header(e2)) && e2 == e,
        },
{
    if input.len() < HEADER_SIZE {
        return Ok(None);
    }
    let buf = header_prefix(input, 0);
    assert(input@.subrange(0, HEADER_SIZE as int) =~= input@.take(HEADER_SIZE as int));
    match Header::deserialize(&buf) {
        Ok(h) => Ok(Some(h)),
        Err(e) => Err(FrameError::Header(e)),
    }
}

/// Reads one frame from the front of a stream whose remaining content is
/// `input`: `Ok(None)` at the end of the stream, an error for a bad header
/// or a payload that the stream cuts short.
pub fn read_frame(input: &[u8]) -> (r: Result<Option<Frame>, FrameError>)
    ensures
        match spec_read_header(input@) {
            None => r matches Ok(None),
            Some(Err(e)) => r matches Err(FrameError::Header(e2)) && e2 == e,
            Some(Ok(h)) => if input@.len() < HEADER_SIZE + h.len {
                r matches Err(FrameError::IncompletePayload { expected, got }) && expected == h.len
                    && got == 0
            } else {
                r matches Ok(Some(f)) && f.header == h && f.data@ == input@.subrange(
                    HEADER_SIZE as int,
                    HEADER_SIZE + h.len,
                )
            },
        },
{
    let header = match read_header(input) {
        Ok(Some(h)) => h,
        Ok(None) => return Ok(None),
        Err(e) => return Err(e),
    };
    let total = HEADER_SIZE + header.len as usize;
    if input.len() < total {
        return Err(FrameError::IncompletePayload { expected: header.len, got: 0 });
    }
    let data = copy_range(input, HEADER_SIZE, total);
    Ok(Some(Frame { header, data }))
}

fn copy_range(input: &[u8], start: usize, end: usize) -> (out: Vec<u8>)
    requires
        start <= end <= input@.len(),
    ensures
        out@ == input@.subrange(start as int, end as int),
{
    let mut out: Vec<u8> = Vec::new();
    let mut i = start;
    while i < end
        invariant
            start <= i <= end <= input@.len(),
            out@ == input@.subrange(start as int, i as int),
        decreases end - i,
    {
        out.push(input[i]);
        i = i + 1;
        assert(out@ =~= input@.subrange(start as int, i as int));
    }
    out
}

/// What `extract_frame_from_buffer` does to a buffer `b`: the frame it
/// takes off the front, if the buffer holds a whole one.
pub open spec fn spec_extract(b: Seq<u8>) -> Result<Option<(Header, Seq<u8>)>, HeaderError> {
    match spec_read_header(b) {
        None => Ok(None),
        Some(Err(e)) => Err(e),
        Some(Ok(h)) => if b.len() >= HEADER_SIZE + h.len {
            Ok(Some((h, b.subrange(HEADER_SIZE as int, HEADER_SIZE + h.len))))
        } else {
            Ok(None)
        },
    }
}

/// Takes one complete frame off the front of `buffer`. A buffer that does
/// not yet hold a whole frame is left as it is and gives `Ok(None)`.
pub fn extract_frame_from_buffer(buffer: &mut Vec<u8>) -> (r: Result<Option<Frame>, FrameError>)
    ensures
        match spec_extract(old(buffer)@) {
            Err(e) => r matches Err(FrameError::Header(e2)) && e2 == e
                && final(buffer)@ == old(buffer)@,
            Ok(None) => r matches Ok(None) && final(buffer)@ == old(buffer)@,
            Ok(Some((h, d))) => r matches Ok(Some(f)) && f.header == h && f.data@ == d
                && final(buffer)@ == old(buffer)@.skip(HEADER_SIZE + h.len),
        },
{
    if buffer.len() >= HEADER_SIZE {
        let header_bytes = header_prefix(buffer.as_slice(), 0);
        assert(buffer@.subrange(0, HEADER_SIZE as int) =~= buffer@.take(HEADER_SIZE as int));
        let header = match Header::deserialize(&header_bytes) {
            Ok(h) => h,
            Err(e) => return Err(FrameError::Header(e)),
        };
        let total = HEADER_SIZE + header.len as usize;
        if buffer.len() >= total {
            let data = copy_range(buffer.as_slice(), HEADER_SIZE, total);
            let rest = copy_range(buffer.as_slice(), total, buffer.len());
            assert(rest@ =~= old(buffer)@.skip(total as int));
            *buffer = rest;
            return Ok(Some(Frame { header, data }));
        }
    }
    Ok(None)
}

/// Reassembles frames from a byte stream that arrives in pieces of any
/// size: bytes are handed in with `push_bytes`, and a partial header or
/// payload stays buffered until the rest of it arrives.
pub struct FrameReader {
    buffer: Vec<u8>,
}

impl FrameReader {
    /// The bytes received and not yet taken as frames.
    pub closed spec fn pending(&self) -> Seq<u8> {
        self.buffer@
    }

    pub fn new() -> (r: Self)
        ensures
            r.pending() == Seq::<u8>::empty(),
    {
        Self { buffer: Vec::new() }
    }

    /// Appends bytes that were read from the stream.
    pub fn push_bytes(&mut self, bytes: &[u8])
        ensures
            final(self).pending() == old(self).pending() + bytes@,
    {
        let mut i: usize = 0;
        let ghost start = self.buffer@;
        while i < bytes.len()
            invariant
                i <= bytes@.len(),
                self.buffer@ == start + bytes@.take(i as int),
            decreases bytes.len() - i,
        {
            self.buffer.push(bytes[i]);
            i = i + 1;
            assert(self.buffer@ =~= start + bytes@.take(i as int));
        }
        assert(bytes@.take(bytes@.len() as int) =~= bytes@);
    }

    /// The next complete frame, or `Ok(None)` when more bytes are needed.
    pub fn read_next_frame(&mut self) -> (r: Result<Option<Frame>, FrameError>)
        ensures
            match spec_extract(old(self).pending()) {
                Err(e) => r matches Err(FrameError::Header(e2)) && e2 == e && final(self).pending()
                    == old(self).pending(),
                Ok(None) => r matches Ok(None) && final(self).pending() == old(self).pending(),
                Ok(Some((h, d))) => r matches Ok(Some(f)) && f.header == h && f.data@ == d
                    && final(self).pending() == old(self).pending().skip(HEADER_SIZE + h.len),
            },
    {
        extract_frame_from_buffer(&mut self.buffer)
    }

    pub fn is_buffer_empty(&self) -> (b: bool)
        ensures
            b == (self.pending().len() == 0),
    {
        self.buffer.len() == 0
    }
}

/// A frame that is taken off the front of a buffer comes out whole and
/// leaves exactly the bytes that followed it: writing a frame and feeding
/// its bytes, in one piece or many, to the reader gives the frame back.
pub proof fn lemma_extract_written_frame(h: Header, data: Seq<u8>, rest: Seq<u8>)
    requires
        encodable(h),
        data.len() == h.len,
    ensures
        spec_extract(frame_bytes(h, data) + rest) == Ok::<Option<(Header, Seq<u8>)>, HeaderError>(
            Some((h, data)),
        ),
        (frame_bytes(h, data) + rest).skip(HEADER_SIZE + h.len) == rest,
{
    lemma_header_roundtrip(h);
    let b = frame_bytes(h, data) + rest;
    assert(b.take(HEADER_SIZE as int) =~= header_bytes(h));
    assert(b.subrange(HEADER_SIZE as int, HEADER_SIZE + h.len) =~= data);
    assert(b.skip(HEADER_SIZE + h.len) =~= rest);
}

/// Reading a stream that starts with a written frame gives that frame
/// back: `read_frame` finds its header, and its payload follows.
pub proof fn lemma_read_written_frame(h: Header, data: Seq<u8>, rest: Seq<u8>)
    requires
        encodable(h),
        data.len() == h.len,
    ensures
        spec_read_header(frame_bytes(h, data) + rest) == Some(Ok::<Header, HeaderError>(h)),
        (frame_bytes(h, data) + rest).len() >= HEADER_SIZE + h.len,
        (frame_bytes(h, data) + rest).subrange(HEADER_SIZE as int, HEADER_SIZE + h.len) == data,
{
    lemma_extract_written_frame(h, data, rest);
    let b = frame_bytes(h, data) + rest;
    assert(b.subrange(HEADER_SIZE as int, HEADER_SIZE + h.len) =~= data);
}

/// A buffer that holds less than one whole frame gives no frame, so a
/// partial header or payload is never discarded.
pub proof fn lemma_partial_frame_waits(h: Header, data: Seq<u8>, k: int)
    requires
        encodable(h),
        data.len() == h.len,
        0 <= k < HEADER_SIZE + h.len,
    ensures
        spec_extract(frame_bytes(h, data).take(k)) == Ok::<Option<(Header, Seq<u8>)>, HeaderError>(
            None,
        ),
{
    lemma_header_roundtrip(h);
    let b = frame_bytes(h, data).take(k);
    if k >= HEADER_SIZE {
        assert(b.take(HEADER_SIZE as int) =~= header_bytes(h));
    }
}

/// The bytes of frames written one after another.
pub open spec fn stream_bytes(fs: Seq<(Header, Seq<u8>)>) -> Seq<u8>
    decreases fs.len(),
{
    if fs.len() == 0 {
        Seq::empty()
    } else {
        frame_bytes(fs[0].0, fs[0].1) + stream_bytes(fs.skip(1))
    }
}

/// Frames that `write_frame` can write: encodable headers, each with the
/// payload length it announces.
pub open spec fn writable_frames(fs: Seq<(Header, Seq<u8>)>) -> bool {
    forall|i: int| 0 <= i < fs.len() ==> encodable(#[trigger] fs[i].0) && fs[i].1.len() == fs[i].0.len
}

/// The frames that reading `b` again and again takes, in order, and the
/// bytes left once no whole frame remains (or a header is refused).
pub open spec fn drain(b: Seq<u8>) -> (Seq<(Header, Seq<u8>)>, Seq<u8>)
    decreases b.len(),
{
    match spec_extract(b) {
        Ok(Some((h, d))) => if b.len() >= HEADER_SIZE + h.len {
            let r = drain(b.skip(HEADER_SIZE + h.len));
            (seq![(h, d)] + r.0, r.1)
        } else {
            (Seq::empty(), b)
        },
        _ => (Seq::empty(), b),
    }
}

/// Reading a stream of written frames followed by the beginning `t` of a
/// frame (so that no frame can be read from `t` alone) gives every frame, in
/// the order written, and leaves `t` buffered, to be completed by later
/// pushes. With `push_bytes` appending and `read_next_frame` taking one
/// `spec_extract` step, this is what any sequence of pushes, however the
/// stream is split, and reads gives.
pub proof fn lemma_stream_drain(fs: Seq<(Header, Seq<u8>)>, t: Seq<u8>)
    requires
        writable_frames(fs),
        spec_extract(t) == Ok::<Option<(Header, Seq<u8>)>, HeaderError>(None),
    ensures
        drain(stream_bytes(fs) + t) == (fs, t),
    decreases fs.len(),
{
    if fs.len() == 0 {
        assert(stream_bytes(fs) + t =~= t);
    } else {
        let h = fs[0].0;
        let d = fs[0].1;
        assert(encodable(fs[0].0) && fs[0].1.len() == fs[0].0.len);
        let rest = stream_bytes(fs.skip(1)) + t;
        assert(stream_bytes(fs) + t =~= frame_bytes(h, d) + rest);
        lemma_extract_written_frame(h, d, rest);
        assert(writable_frames(fs.skip(1))) by {
            assert forall|i: int| 0 <= i < fs.skip(1).len() implies encodable(#[trigger] fs.skip(1)[i].0)
                && fs.skip(1)[i].1.len() == fs.skip(1)[i].0.len by {
                assert(fs.skip(1)[i] == fs[i + 1]);
            }
        }
        lemma_stream_drain(fs.skip(1), t);
        assert(seq![fs[0]] + fs.skip(1) =~= fs);
    }
}

/// However much of a written stream of frames has arrived, and in however
/// many pieces it was pushed: the reader takes the first frame as soon as
/// all its bytes are in, and keeps exactly the part of the following frames
/// that has arrived; before that it takes nothing and keeps every byte.
/// Reading again and again therefore gives the frames in the order they
/// were written, whatever the split, and a frame cut short comes out once
/// its remaining bytes are pushed.
pub proof fn lemma_stream_prefix(fs: Seq<(Header, Seq<u8>)>, m: int)
    requires
        writable_frames(fs),
        0 <= m <= stream_bytes(fs).len(),
    ensures
        ({
            let b = stream_bytes(fs).take(m);
            if fs.len() > 0 && m >= HEADER_SIZE + fs[0].0.len {
                &&& spec_extract(b) == Ok::<Option<(Header, Seq<u8>)>, HeaderError>(Some(fs[0]))
                &&& b.skip(HEADER_SIZE + fs[0].0.len) == stream_bytes(fs.skip(1)).take(
                    m - (HEADER_SIZE + fs[0].0.len),
                )
            } else {
                spec_extract(b) == Ok::<Option<(Header, Seq<u8>)>, HeaderError>(None)
            }
        }),
{
    let b = stream_bytes(fs).take(m);
    if fs.len() == 0 {
        assert(b.len() == 0);
    } else {
        let h = fs[0].0;
        let d = fs[0].1;
        assert(encodable(fs[0].0) && fs[0].1.len() == fs[0].0.len);
        lemma_header_roundtrip(h);
        let f = frame_bytes(h, d);
        let rest = stream_bytes(fs.skip(1));
        let l = HEADER_SIZE + h.len;
        assert(f.len() == l);
        if m >= l {
            assert(b =~= f + rest.take(m - l));
            lemma_extract_written_frame(h, d, rest.take(m - l));
            assert(fs[0] == (h, d));
        } else {
            assert(b =~= f.take(m));
            lemma_partial_frame_waits(h, d, m);
        }
    }
}

/// Appends the 12 header bytes to `out`.
pub fn write_header(out: &mut Vec<u8>, header: &Header) -> (r: Result<(), FrameError>)
    ensures
        r is Ok,
        final(out)@ == old(out)@ + header_bytes(*header),
{
    let bytes = header.serialize();
    out.extend_from_slice(&bytes);
    Ok(())
}

/// Appends a whole frame, header then payload, to `out`.
pub fn write_frame(out: &mut Vec<u8>, frame: &Frame) -> (r: Result<(), FrameError>)
    ensures
        r is Ok,
        final(out)@ == old(out)@ + frame_bytes(frame.header, frame.data@),
{
    let _ = write_header(out, &frame.header);
    out.extend_from_slice(frame.data.as_slice());
    assert(final(out)@ =~= old(out)@ + frame_bytes(frame.header, frame.data@));
    Ok(())
}

/// Appends a header and a payload given apart to `out`.
pub fn write_raw_frame(out: &mut Vec<u8>, header: &Header, payload: &[u8]) -> (r: Result<(), FrameError>)
    ensures
        r is Ok,
        final(out)@ == old(out)@ + frame_bytes(*header, payload@),
{
    let bytes = header.serialize();
    out.extend_from_slice(&bytes);
    out.extend_from_slice(payload);
    assert(final(out)@ =~= old(out)@ + frame_bytes(*header, payload@));
    Ok(())
}

/// The header of the last frame in `s` that can be read by stepping from
/// frame to frame starting at offset `pos`; `cur` when there is none.
pub open spec fn last_readable_header(s: Seq<u8>, pos: int, cur: Header) -> Header
    decreases s.len() - pos,
{
    if pos < 0 || pos + HEADER_SIZE > s.len() {
        cur
    } else {
        match spec_deserialize(s.subrange(pos, pos + HEADER_SIZE)) {
            Ok(h) => if pos + HEADER_SIZE + h.len > s.len() {
                h
            } else {
                last_readable_header(s, pos + HEADER_SIZE + h.len, h)
            },
            Err(_) => cur,
        }
    }
}

/// The recorded duration, in whole seconds, of a recording: the seconds of
/// the last readable frame less those of the first, or 0 when the first
/// header cannot be read.
pub open spec fn spec_recording_secs(s: Seq<u8>) -> u64 {
    match spec_read_header(s) {
        Some(Ok(first)) => {
            let last = last_readable_header(s, HEADER_SIZE + first.len, first);
            if last.sec >= first.sec {
                (last.sec - first.sec) as u64
            } else {
                0
            }
        },
        _ => 0,
    }
}

/// The duration in seconds of a recording whose bytes are `data`: frame
/// headers are read one after another, skipping each payload, until the
/// stream ends or a header does not parse.
pub fn calc_time_streaming(data: &[u8]) -> (secs: u64)
    ensures
        secs == spec_recording_secs(data@),
{
    let first = match read_header(data) {
        Ok(Some(h)) => h,
        _ => return 0,
    };
    let mut end = first;
    let mut pos: usize;
    if (first.len as usize) > data.len() - HEADER_SIZE {
        assert(last_readable_header(data@, HEADER_SIZE + first.len, first) == first);
        return if end.sec >= first.sec { end.sec - first.sec } else { 0 };
    }
    pos = HEADER_SIZE + first.len as usize;
    while pos <= data.len() && data.len() - pos >= HEADER_SIZE
        invariant
            pos <= data@.len(),
            spec_read_header(data@) == Some(Ok::<Header, HeaderError>(first)),
            last_readable_header(data@, pos as int, end) == last_readable_header(
                data@,
                HEADER_SIZE + first.len,
                first,
            ),
        decreases data@.len() - pos,
    {
        let buf = header_prefix(data, pos);
        let ghost prev = end;
        match Header::deserialize(&buf) {
            Ok(h) => {
                end = h;
                let after = data.len() - pos - HEADER_SIZE;
                if (h.len as usize) > after {
                    assert(last_readable_header(data@, pos as int, prev) == h);
                    return if end.sec >= first.sec { end.sec - first.sec } else { 0 };
                }
                pos = pos + HEADER_SIZE + h.len as usize;
            },
            Err(_) => {
                assert(last_readable_header(data@, pos as int, prev) == prev);
                return if end.sec >= first.sec { end.sec - first.sec } else { 0 };
            },
        }
    }
    if end.sec >= first.sec { end.sec - first.sec } else { 0 }
}

proof fn lemma_writable_skip(fs: Seq<(Header, Seq<u8>)>)
    requires
        writable_frames(fs),
        fs.len() > 0,
    ensures
        writable_frames(fs.skip(1)),
{
    assert forall|i: int| 0 <= i < fs.skip(1).len() implies encodable(#[trigger] fs.skip(1)[i].0)
        && fs.skip(1)[i].1.len() == fs.skip(1)[i].0.len by {
        assert(fs.skip(1)[i] == fs[i + 1]);
    }
}

/// Scanning the headers of written frames that follow `pre` ends at the
/// header of the last frame (or at `cur` when there is none).
proof fn lemma_scan_written(pre: Seq<u8>, fs: Seq<(Header, Seq<u8>)>, cur: Header)
    requires
        writable_frames(fs),
    ensures
        last_readable_header(pre + stream_bytes(fs), pre.len() as int, cur) == if fs.len() == 0 {
            cur
        } else {
            fs.last().0
        },
    decreases fs.len(),
{
    let s = pre + stream_bytes(fs);
    if fs.len() == 0 {
        assert(stream_bytes(fs).len() == 0);
    } else {
        let h = fs[0].0;
        let d = fs[0].1;
        assert(encodable(fs[0].0) && fs[0].1.len() == fs[0].0.len);
        lemma_header_roundtrip(h);
        let f = frame_bytes(h, d);
        let rest = stream_bytes(fs.skip(1));
        assert(s =~= (pre + f) + rest);
        assert(s.subrange(pre.len() as int, pre.len() + HEADER_SIZE) =~= header_bytes(h));
        lemma_writable_skip(fs);
        lemma_scan_written(pre + f, fs.skip(1), h);
        assert((pre + f).len() == pre.len() + HEADER_SIZE + h.len);
        if fs.len() == 1 {
            assert(rest.len() == 0);
        } else {
            assert(fs.skip(1).last() == fs.last());
        }
    }
}

/// The duration of a recording is the time between its first and its last
/// frame, in whole seconds (0 when the clock went back), however many
/// frames it holds and however long it is.
pub proof fn lemma_recording_duration(fs: Seq<(Header, Seq<u8>)>)
    requires
        writable_frames(fs),
        fs.len() > 0,
    ensures
        spec_recording_secs(stream_bytes(fs)) == if fs.last().0.sec >= fs[0].0.sec {
            (fs.last().0.sec - fs[0].0.sec) as u64
        } else {
            0
        },
{
    let h = fs[0].0;
    let d = fs[0].1;
    assert(encodable(fs[0].0) && fs[0].1.len() == fs[0].0.len);
    lemma_header_roundtrip(h);
    let f = frame_bytes(h, d);
    let s = stream_bytes(fs);
    assert(s =~= f + stream_bytes(fs.skip(1)));
    assert(s.take(HEADER_SIZE as int) =~= header_bytes(h));
    assert(spec_read_header(s) == Some(Ok::<Header, HeaderError>(h)));
    lemma_writable_skip(fs);
    lemma_scan_written(f, fs.skip(1), h);
    assert(f.len() == HEADER_SIZE + h.len);
    if fs.len() > 1 {
        assert(fs.skip(1).last() == fs.last());
    }
}

/// A buffer whose first twelve bytes are not a valid header is refused with
/// that header's error, however many bytes follow: the reader never waits
/// for more bytes behind a bad header.
pub proof fn lemma_bad_header_refused(b: Seq<u8>)
    requires
        b.len() >= HEADER_SIZE,
        spec_deserialize(b.take(HEADER_SIZE as int)) is Err,
    ensures
        spec_extract(b) == Err::<Option<(Header, Seq<u8>)>, HeaderError>(
            spec_deserialize(b.take(HEADER_SIZE as int))->Err_0,
        ),
{
}

/// A header field out of range is reported as such: microseconds above
/// 999,999 as `InvalidUsec`, else a length above `MAX_RECORD_LEN` as
/// `InvalidLength`.
pub proof fn lemma_header_field_errors(b: Seq<u8>)
    requires
        b.len() >= HEADER_SIZE,
    ensures
        decoded_usec(b.take(HEADER_SIZE as int)) > 999_999 ==> spec_extract(b) == Err::<
            Option<(Header, Seq<u8>)>,
            HeaderError,
        >(HeaderError::InvalidUsec(decoded_usec(b.take(HEADER_SIZE as int)))),
        decoded_usec(b.take(HEADER_SIZE as int)) <= 999_999 && decoded_len(b.take(HEADER_SIZE as int))
            > MAX_RECORD_LEN ==> spec_extract(b) == Err::<Option<(Header, Seq<u8>)>, HeaderError>(
            HeaderError::InvalidLength(decoded_len(b.take(HEADER_SIZE as int))),
        ),
{
}

} // verus!

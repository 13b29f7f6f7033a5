//! The ZXH video stream: frames with a four byte magic, a fixed header and a payload.
//!
//! A version 1 header has 16 bytes after the magic: the timestamp at 4, the payload length at 12.
//! A version 2 header has 48 bytes after the magic: the timestamp at 12, the payload length at 44.
//! Numbers are big endian.

use vstd::prelude::*;

verus! {

/// The longest payload that a frame may announce.
pub const MAX_PAYLOAD: u32 = 4194304;

/// The two layouts of a frame's header.
#[derive(Clone, Copy, Debug, PartialEq, Eq, Structural)]
pub enum ZxhVersion {
    One,
    Two,
}

/// Why a stream does not hold a frame.
#[derive(Clone, Copy, Debug, PartialEq, Eq, Structural)]
pub enum ZxhError {
    BadMagic,
    BadVersion,
    BadPayloadLen,
    /// The stream ends inside a frame, after its magic.
    Truncated,
}

/// A frame of the stream.
#[derive(Debug)]
pub struct ZxhFrame {
    pub timestamp_us: u64,
    pub payload: Vec<u8>,
}

/// What a frame holds.
pub struct FrameView {
    pub timestamp_us: u64,
    pub payload: Seq<u8>,
}

impl View for ZxhFrame {
    type V = FrameView;

    open spec fn view(&self) -> FrameView {
        FrameView { timestamp_us: self.timestamp_us, payload: self.payload@ }
    }
}

/// What the start of a stream holds.
pub enum Decoded {
    /// The stream ends before the next frame's magic is complete.
    End,
    /// A frame that takes up the first `used` bytes.
    Frame { frame: FrameView, used: int },
    /// No frame.
    Bad(ZxhError),
}

// ----- The format -----

/// The number that the bytes `s` denote, the most significant first.
pub open spec fn big_endian(s: Seq<u8>) -> nat
    decreases s.len(),
{
    if s.len() == 0 {
        0
    } else {
        big_endian(s.drop_last()) * 256 + s.last() as nat
    }
}

/// The number of header bytes after the magic.
pub open spec fn rest_len(version: ZxhVersion) -> int {
    match version {
        ZxhVersion::One => 16,
        ZxhVersion::Two => 48,
    }
}

/// Where the timestamp begins, counted from the end of the magic.
pub open spec fn timestamp_at(version: ZxhVersion) -> int {
    match version {
        ZxhVersion::One => 4,
        ZxhVersion::Two => 12,
    }
}

/// The timestamp of the header bytes `rest`.
pub open spec fn header_timestamp(version: ZxhVersion, rest: Seq<u8>) -> nat {
    big_endian(rest.subrange(timestamp_at(version), timestamp_at(version) + 8))
}

/// The payload length of the header bytes `rest`: their last four.
pub open spec fn header_payload_len(version: ZxhVersion, rest: Seq<u8>) -> nat {
    big_endian(rest.subrange(rest_len(version) - 4, rest_len(version)))
}

/// The version that a magic announces.
pub open spec fn magic_version(magic: Seq<u8>) -> Result<ZxhVersion, ZxhError> {
    if magic.take(3) != seq![0x5Au8, 0x58u8, 0x48u8] {
        Err(ZxhError::BadMagic)
    } else if magic[3] == 0x32 {
        Ok(ZxhVersion::Two)
    } else if magic[3] == 0x31 {
        Ok(ZxhVersion::One)
    } else {
        Err(ZxhError::BadVersion)
    }
}

/// What the start of the stream `s` holds, where the stream ends with `s`.
pub open spec fn decode(s: Seq<u8>) -> Decoded {
    if s.len() < 4 {
        Decoded::End
    } else {
        match magic_version(s.take(4)) {
            Err(e) => Decoded::Bad(e),
            Ok(version) => {
                let body = 4 + rest_len(version);
                if s.len() < body {
                    Decoded::Bad(ZxhError::Truncated)
                } else {
                    let rest = s.subrange(4, body);
                    let len = header_payload_len(version, rest);
                    if len == 0 || len > MAX_PAYLOAD {
                        Decoded::Bad(ZxhError::BadPayloadLen)
                    } else if s.len() < body + len {
                        Decoded::Bad(ZxhError::Truncated)
                    } else {
                        Decoded::Frame {
                            frame: FrameView {
                                timestamp_us: header_timestamp(version, rest) as u64,
                                payload: s.subrange(body, body + len),
                            },
                            used: body + len,
                        }
                    }
                }
            },
        }
    }
}

/// The `n` bytes that denote `v`, the most significant first.
pub open spec fn big_endian_bytes(v: nat, n: nat) -> Seq<u8>
    decreases n,
{
    if n == 0 {
        Seq::empty()
    } else {
        big_endian_bytes(v / 256, (n - 1) as nat).push((v % 256) as u8)
    }
}

/// A frame as it is sent. `filler` stands in the header bytes that carry neither the timestamp nor
/// the payload length.
pub open spec fn encode(version: ZxhVersion, frame: FrameView, filler: spec_fn(int) -> u8) -> Seq<u8> {
    let stamp = big_endian_bytes(frame.timestamp_us as nat, 8);
    let len = big_endian_bytes(frame.payload.len(), 4);
    let at = timestamp_at(version);
    let rest = Seq::new(
        rest_len(version) as nat,
        |i: int|
            if at <= i < at + 8 {
                stamp[i - at]
            } else if i >= rest_len(version) - 4 {
                len[i - (rest_len(version) - 4)]
            } else {
                filler(i)
            },
    );
    let last = match version {
        ZxhVersion::One => 0x31u8,
        ZxhVersion::Two => 0x32u8,
    };
    seq![0x5Au8, 0x58u8, 0x48u8, last] + rest + frame.payload
}

proof fn lemma_big_endian_bytes(v: nat, n: nat)
    requires
        v < vstd::arithmetic::power::pow(256, n),
    ensures
        big_endian_bytes(v, n).len() == n,
        big_endian(big_endian_bytes(v, n)) == v,
    decreases n,
{
    reveal(vstd::arithmetic::power::pow);
    if n > 0 {
        let all = big_endian_bytes(v, n);
        lemma_big_endian_bytes(v / 256, (n - 1) as nat);
        assert(all.drop_last() =~= big_endian_bytes(v / 256, (n - 1) as nat));
    }
}

/// A frame that is sent is read back, in either version, whatever else its header carries and
/// whatever follows it: with its timestamp, with its payload, and to its last byte.
pub proof fn law_sent_frame_is_read_back(
    version: ZxhVersion,
    frame: FrameView,
    filler: spec_fn(int) -> u8,
    tail: Seq<u8>,
)
    requires
        0 < frame.payload.len() <= MAX_PAYLOAD,
    ensures
        decode(encode(version, frame, filler) + tail) == (Decoded::Frame {
            frame,
            used: encode(version, frame, filler).len() as int,
        }),
{
    let s = encode(version, frame, filler) + tail;
    let stamp = big_endian_bytes(frame.timestamp_us as nat, 8);
    let len = big_endian_bytes(frame.payload.len(), 4);
    assert(vstd::arithmetic::power::pow(256, 8) == 0x1_0000_0000_0000_0000 && vstd::arithmetic::power::pow(256, 4)
        == 0x1_0000_0000) by {
        reveal_with_fuel(vstd::arithmetic::power::pow, 9);
    }
    lemma_big_endian_bytes(frame.timestamp_us as nat, 8);
    lemma_big_endian_bytes(frame.payload.len(), 4);
    assert(s.take(4).take(3) =~= seq![0x5Au8, 0x58u8, 0x48u8]);
    assert(magic_version(s.take(4)) == Ok::<ZxhVersion, ZxhError>(version));
    let body = 4 + rest_len(version);
    let rest = s.subrange(4, body);
    let at = timestamp_at(version);
    assert(rest.subrange(at, at + 8) =~= stamp);
    assert(rest.subrange(rest_len(version) - 4, rest_len(version)) =~= len);
    assert(s.subrange(body, body + frame.payload.len()) =~= frame.payload);
}

/// A frame that is read has a payload, of at most the longest length, and takes up at most the
/// bytes that there are.
pub proof fn law_frame_has_payload(s: Seq<u8>)
    ensures
        decode(s) matches Decoded::Frame { frame, used } ==> 0 < frame.payload.len() <= MAX_PAYLOAD
            && 20 < used <= s.len(),
{
}

/// What is read of a frame depends on its own bytes only: bytes that come later do not change it.
pub proof fn law_later_bytes_do_not_matter(s: Seq<u8>, later: Seq<u8>)
    ensures
        decode(s) is Frame ==> decode(s + later) == decode(s),
{
    if s.len() >= 4 {
        assert((s + later).take(4) =~= s.take(4));
        if let Ok(version) = magic_version(s.take(4)) {
            let body = 4 + rest_len(version);
            if s.len() >= body {
                assert((s + later).subrange(4, body) =~= s.subrange(4, body));
                let len = header_payload_len(version, s.subrange(4, body));
                if s.len() >= body + len {
                    assert((s + later).subrange(body, body + len) =~= s.subrange(body, body + len));
                }
            }
        }
    }
}

// ----- Reading -----

/// The number that the bytes `from..from + n` of `s` denote.
fn read_big_endian(s: &Vec<u8>, from: usize, n: usize) -> (r: u64)
    requires
        n <= 8,
        from + n <= s.len(),
    ensures
        r == big_endian(s@.subrange(from as int, from + n)),
        n == 4 ==> r <= u32::MAX,
{
    let mut value: u64 = 0;
    let mut i: usize = 0;
    assert(s@.subrange(from as int, from + 0) =~= Seq::empty());
    while i < n
        invariant
            i <= n <= 8,
            from + n <= s.len(),
            value == big_endian(s@.subrange(from as int, from + i)),
            i == 0 ==> value == 0,
            i == 1 ==> value < 0x100,
            i == 2 ==> value < 0x1_0000,
            i == 3 ==> value < 0x100_0000,
            i == 4 ==> value < 0x1_0000_0000,
            i == 5 ==> value < 0x100_0000_0000,
            i == 6 ==> value < 0x1_0000_0000_0000,
            i == 7 ==> value < 0x100_0000_0000_0000,
        decreases n - i,
    {
        assert(s@.subrange(from as int, from + i + 1).drop_last() =~= s@.subrange(from as int, from + i));
        value = value * 256 + s[from + i] as u64;
        i = i + 1;
    }
    value
}

/// How far the reading of one frame has come.
#[derive(Clone, Copy, Debug, PartialEq, Eq, Structural)]
pub enum ZxhReader {
    Magic,
    Header(ZxhVersion),
    Payload { timestamp_us: u64, len: usize },
}

/// What follows from the bytes that a reader asked for.
pub enum ZxhProgress {
    More(ZxhReader),
    Done(ZxhFrame),
}

impl ZxhReader {
    /// The number of bytes that the reader needs next.
    pub open spec fn needs(self) -> int {
        match self {
            ZxhReader::Magic => 4,
            ZxhReader::Header(version) => rest_len(version),
            ZxhReader::Payload { len, .. } => len as int,
        }
    }

    /// The number of bytes that the reader needs next.
    pub fn wanted(&self) -> (r: usize)
        ensures
            r == self.needs(),
    {
        match self {
            ZxhReader::Magic => 4,
            ZxhReader::Header(ZxhVersion::One) => 16,
            ZxhReader::Header(ZxhVersion::Two) => 48,
            ZxhReader::Payload { len, .. } => *len,
        }
    }

    /// What follows from the bytes that the reader asked for.
    pub open spec fn feeds(self, bytes: Seq<u8>, r: Result<ZxhProgress, ZxhError>) -> bool {
        match self {
            ZxhReader::Magic => match magic_version(bytes) {
                Ok(version) => r == Ok::<ZxhProgress, ZxhError>(
                    ZxhProgress::More(ZxhReader::Header(version)),
                ),
                Err(e) => r == Err::<ZxhProgress, ZxhError>(e),
            },
            ZxhReader::Header(version) => {
                let len = header_payload_len(version, bytes);
                if len == 0 || len > MAX_PAYLOAD {
                    r == Err::<ZxhProgress, ZxhError>(ZxhError::BadPayloadLen)
                } else {
                    r == Ok::<ZxhProgress, ZxhError>(
                        ZxhProgress::More(
                            ZxhReader::Payload {
                                timestamp_us: header_timestamp(version, bytes) as u64,
                                len: len as usize,
                            },
                        ),
                    )
                }
            },
            ZxhReader::Payload { timestamp_us, .. } => r matches Ok(ZxhProgress::Done(frame))
                && frame@ == (FrameView { timestamp_us, payload: bytes }),
        }
    }

    /// Hands the reader the bytes that it asked for.
    pub fn feed(&self, bytes: Vec<u8>) -> (r: Result<ZxhProgress, ZxhError>)
        requires
            bytes@.len() == self.needs(),
        ensures
            self.feeds(bytes@, r),
    {
        match self {
            ZxhReader::Magic => {
                assert(bytes@.take(3) =~= seq![bytes@[0], bytes@[1], bytes@[2]]);
                let ghost tag = seq![0x5Au8, 0x58u8, 0x48u8];
                if bytes[0] != 0x5A || bytes[1] != 0x58 || bytes[2] != 0x48 {
                    assert(bytes@.take(3)[0] != tag[0] || bytes@.take(3)[1] != tag[1] || bytes@.take(
                        3,
                    )[2] != tag[2]);
                    return Err(ZxhError::BadMagic);
                }
                assert(bytes@.take(3) =~= tag);
                let kind: u8 = bytes[3];
                if kind == 0x32 {
                    Ok(ZxhProgress::More(ZxhReader::Header(ZxhVersion::Two)))
                } else if kind == 0x31 {
                    Ok(ZxhProgress::More(ZxhReader::Header(ZxhVersion::One)))
                } else {
                    Err(ZxhError::BadVersion)
                }
            },
            ZxhReader::Header(version) => {
                let (timestamp_us, len): (u64, u64) = match version {
                    ZxhVersion::One => (read_big_endian(&bytes, 4, 8), read_big_endian(&bytes, 12, 4)),
                    ZxhVersion::Two => (read_big_endian(&bytes, 12, 8), read_big_endian(&bytes, 44, 4)),
                };
                if len == 0 || len > MAX_PAYLOAD as u64 {
                    return Err(ZxhError::BadPayloadLen);
                }
                Ok(ZxhProgress::More(ZxhReader::Payload { timestamp_us, len: len as usize }))
            },
            ZxhReader::Payload { timestamp_us, .. } => Ok(
                ZxhProgress::Done(ZxhFrame { timestamp_us: *timestamp_us, payload: bytes }),
            ),
        }
    }

    /// What it means that the stream ends before the reader has the bytes that it asked for: inside
    /// the magic it is the end of the video, later it is an error.
    pub fn end_of_stream(&self) -> (r: Result<(), ZxhError>)
        ensures
            r == (if *self is Magic {
                Ok::<(), ZxhError>(())
            } else {
                Err::<(), ZxhError>(ZxhError::Truncated)
            }),
    {
        match self {
            ZxhReader::Magic => Ok(()),
            _ => Err(ZxhError::Truncated),
        }
    }
}

/// A copy of the bytes `from..to` of `s`.
fn bytes_of(s: &Vec<u8>, from: usize, to: usize) -> (r: Vec<u8>)
    requires
        from <= to <= s@.len(),
    ensures
        r@ == s@.subrange(from as int, to as int),
{
    vstd::slice::slice_to_vec(vstd::slice::slice_subrange(s.as_slice(), from, to))
}

/// Reads the frame at the start of `stream`, a stream that ends with these bytes. The number beside
/// the frame is that of the bytes that it takes up.
pub fn read_zxh_frame(stream: &Vec<u8>) -> (r: Result<Option<(ZxhFrame, usize)>, ZxhError>)
    ensures
        match decode(stream@) {
            Decoded::End => r == Ok::<Option<(ZxhFrame, usize)>, ZxhError>(None),
            Decoded::Frame { frame, used } => r matches Ok(Some((f, n))) && f@ == frame && n == used,
            Decoded::Bad(e) => r == Err::<Option<(ZxhFrame, usize)>, ZxhError>(e),
        },
{
    let mut reader = ZxhReader::Magic;
    let mut at: usize = 0;
    loop
        invariant
            at <= stream@.len(),
            match reader {
                ZxhReader::Magic => at == 0,
                ZxhReader::Header(version) => at == 4 && magic_version(stream@.take(4)) == Ok::<
                    ZxhVersion,
                    ZxhError,
                >(version),
                ZxhReader::Payload { timestamp_us, len } => {
                    &&& magic_version(stream@.take(4)) matches Ok(version)
                    &&& at == 4 + rest_len(version)
                    &&& len == header_payload_len(version, stream@.subrange(4, at as int))
                    &&& timestamp_us == header_timestamp(
                        version,
                        stream@.subrange(4, at as int),
                    ) as u64
                    &&& 0 < len <= MAX_PAYLOAD
                },
            },
        decreases match reader {
            ZxhReader::Magic => 2int,
            ZxhReader::Header(_) => 1int,
            ZxhReader::Payload { .. } => 0int,
        },
    {
        let n: usize = reader.wanted();
        if stream.len() - at < n {
            match reader.end_of_stream() {
                Ok(()) => {
                    return Ok(None);
                },
                Err(e) => {
                    return Err(e);
                },
            }
        }
        let bytes = bytes_of(stream, at, at + n);
        assert(reader is Magic ==> bytes@ =~= stream@.take(4));
        let progress = reader.feed(bytes);
        at = at + n;
        match progress {
            Ok(ZxhProgress::More(next)) => {
                reader = next;
            },
            Ok(ZxhProgress::Done(frame)) => {
                return Ok(Some((frame, at)));
            },
            Err(e) => {
                return Err(e);
            },
        }
    }
}

// ----- What holds of streams, byte by byte -----

/// The number in the four bytes of `s` from `at` on.
pub open spec fn four_bytes(s: Seq<u8>, at: int) -> int {
    s[at] * 0x100_0000 + s[at + 1] * 0x1_0000 + s[at + 2] * 0x100 + s[at + 3]
}

/// The number in the eight bytes of `s` from `at` on.
pub open spec fn eight_bytes(s: Seq<u8>, at: int) -> int {
    four_bytes(s, at) * 0x1_0000_0000 + four_bytes(s, at + 4)
}

proof fn lemma_four_bytes(s: Seq<u8>, at: int)
    requires
        0 <= at,
        at + 4 <= s.len(),
    ensures
        big_endian(s.subrange(at, at + 4)) == four_bytes(s, at),
{
    let a = s.subrange(at, at + 4);
    let b = a.drop_last();
    let c = b.drop_last();
    let d = c.drop_last();
    reveal_with_fuel(big_endian, 5);
    assert(d.drop_last() =~= Seq::empty());
    assert(big_endian(d) == s[at]);
    assert(big_endian(c) == s[at] * 256 + s[at + 1]);
    assert(big_endian(b) == (s[at] * 256 + s[at + 1]) * 256 + s[at + 2]);
}

proof fn lemma_eight_bytes(s: Seq<u8>, at: int)
    requires
        0 <= at,
        at + 8 <= s.len(),
    ensures
        big_endian(s.subrange(at, at + 8)) == eight_bytes(s, at),
{
    let x = s.subrange(at, at + 4);
    let all = s.subrange(at, at + 8);
    lemma_four_bytes(s, at);
    let a = all.drop_last();
    let b = a.drop_last();
    let c = b.drop_last();
    assert(c.drop_last() =~= x);
    let n = big_endian(x);
    assert(big_endian(c) == n * 256 + s[at + 4]);
    assert(big_endian(b) == big_endian(c) * 256 + s[at + 5]);
    assert(big_endian(a) == big_endian(b) * 256 + s[at + 6]);
    assert(big_endian(all) == big_endian(a) * 256 + s[at + 7]);
}

/// A stream with fewer than four bytes has come to its end. One that does not begin with `ZXH` holds no
/// frame, nor does one with another version than 1 or 2.
pub proof fn law_stream_begins_with_its_magic(s: Seq<u8>)
    ensures
        decode(s) is End <==> s.len() < 4,
        s.len() >= 4 ==> (decode(s) == Decoded::Bad(ZxhError::BadMagic) <==> !(s[0] == 0x5A && s[1] == 0x58 && s[2]
            == 0x48)),
        s.len() >= 4 ==> (decode(s) == Decoded::Bad(ZxhError::BadVersion) <==> s[0] == 0x5A && s[1] == 0x58 && s[2]
            == 0x48 && s[3] != 0x31 && s[3] != 0x32),
{
    if s.len() >= 4 {
        lemma_magic(s);
    }
}

proof fn lemma_magic(s: Seq<u8>)
    requires
        s.len() >= 4,
    ensures
        s.take(4).take(3) == seq![0x5Au8, 0x58u8, 0x48u8] <==> s[0] == 0x5A && s[1] == 0x58 && s[2] == 0x48,
        s.take(4)[3] == s[3],
{
    let tag = seq![0x5Au8, 0x58u8, 0x48u8];
    let head = s.take(4).take(3);
    assert(head[0] == s[0] && head[1] == s[1] && head[2] == s[2]);
    if s[0] == 0x5A && s[1] == 0x58 && s[2] == 0x48 {
        assert(head =~= tag);
    } else {
        assert(head[0] != tag[0] || head[1] != tag[1] || head[2] != tag[2]);
    }
}

/// What a stream of version 1 or 2 holds, byte by byte. The payload begins behind 20 or 52 bytes; its length
/// stands in the four bytes before it, and is from one byte to four mebibytes; the timestamp stands in the
/// eight bytes from the eighth or the sixteenth on.
pub proof fn law_frame_is_read_byte_by_byte(s: Seq<u8>)
    requires
        s.len() >= 4,
        s[0] == 0x5A,
        s[1] == 0x58,
        s[2] == 0x48,
        s[3] == 0x31 || s[3] == 0x32,
    ensures
        ({
            let body: int = if s[3] == 0x31 {
                20
            } else {
                52
            };
            let stamp: int = if s[3] == 0x31 {
                8
            } else {
                16
            };
            let len = four_bytes(s, body - 4);
            if s.len() < body {
                decode(s) == Decoded::Bad(ZxhError::Truncated)
            } else if len == 0 || len > 4 * 1024 * 1024 {
                decode(s) == Decoded::Bad(ZxhError::BadPayloadLen)
            } else if s.len() < body + len {
                decode(s) == Decoded::Bad(ZxhError::Truncated)
            } else {
                &&& decode(s) matches Decoded::Frame { frame, used }
                &&& used == body + len
                &&& frame.timestamp_us == eight_bytes(s, stamp)
                &&& frame.payload == s.subrange(body, body + len)
            }
        }),
{
    lemma_magic(s);
    let version = if s[3] == 0x31 {
        ZxhVersion::One
    } else {
        ZxhVersion::Two
    };
    assert(magic_version(s.take(4)) == Ok::<ZxhVersion, ZxhError>(version));
    let body = 4 + rest_len(version);
    if s.len() >= body {
        let rest = s.subrange(4, body);
        let at = timestamp_at(version);
        assert(rest.subrange(at, at + 8) =~= s.subrange(at + 4, at + 12));
        assert(rest.subrange(rest_len(version) - 4, rest_len(version)) =~= s.subrange(body - 4, body));
        lemma_four_bytes(s, body - 4);
        lemma_eight_bytes(s, at + 4);
        assert(four_bytes(s, at + 4) < 0x1_0000_0000 && four_bytes(s, at + 8) < 0x1_0000_0000);
        assert(eight_bytes(s, at + 4) <= u64::MAX);
    }
}

/// A reader asks for the magic, then for the rest of the header, which has 16 or 48 bytes, then for the
/// payload.
pub proof fn law_reader_asks_for_what_a_frame_has(timestamp_us: u64, len: usize)
    ensures
        ZxhReader::Magic.needs() == 4,
        ZxhReader::Header(ZxhVersion::One).needs() == 16,
        ZxhReader::Header(ZxhVersion::Two).needs() == 48,
        (ZxhReader::Payload { timestamp_us, len }).needs() == len,
{
}

/// A reader that is handed a frame piece by piece gives the frame that the stream holds.
pub proof fn law_reader_gives_the_frame_of_the_stream(
    s: Seq<u8>,
    a: Result<ZxhProgress, ZxhError>,
    b: Result<ZxhProgress, ZxhError>,
    c: Result<ZxhProgress, ZxhError>,
)
    requires
        decode(s) is Frame,
        ZxhReader::Magic.feeds(s.take(4), a),
        a matches Ok(ZxhProgress::More(second)) ==> second.feeds(s.subrange(4, 4 + second.needs()), b),
        (a matches Ok(ZxhProgress::More(second)) && b matches Ok(ZxhProgress::More(third)))
            ==> (b->Ok_0->More_0).feeds(
            s.subrange(
                4 + (a->Ok_0->More_0).needs(),
                4 + (a->Ok_0->More_0).needs() + (b->Ok_0->More_0).needs(),
            ),
            c,
        ),
    ensures
        a matches Ok(ZxhProgress::More(ZxhReader::Header(_))),
        b matches Ok(ZxhProgress::More(ZxhReader::Payload { .. })),
        c matches Ok(ZxhProgress::Done(frame)) && frame.timestamp_us == decode(s)->frame.timestamp_us
            && frame.payload@ == decode(s)->frame.payload,
{
    let version = magic_version(s.take(4))->Ok_0;
    let body = 4 + rest_len(version);
    let rest = s.subrange(4, body);
    assert(a->Ok_0->More_0 == ZxhReader::Header(version));
    assert(header_payload_len(version, rest) as usize == header_payload_len(version, rest));
}

/// A reader whose pieces do not make a frame says why, as soon as it can tell.
pub proof fn law_reader_refuses_what_is_no_frame(bytes: Seq<u8>, r: Result<ZxhProgress, ZxhError>)
    ensures
        bytes.len() == 4 && ZxhReader::Magic.feeds(bytes, r) ==> {
            &&& r == Err::<ZxhProgress, ZxhError>(ZxhError::BadMagic) <==> !(bytes[0] == 0x5A && bytes[1] == 0x58
                && bytes[2] == 0x48)
            &&& r == Ok::<ZxhProgress, ZxhError>(ZxhProgress::More(ZxhReader::Header(ZxhVersion::One))) <==> bytes
                == seq![0x5Au8, 0x58u8, 0x48u8, 0x31u8]
            &&& r == Ok::<ZxhProgress, ZxhError>(ZxhProgress::More(ZxhReader::Header(ZxhVersion::Two))) <==> bytes
                == seq![0x5Au8, 0x58u8, 0x48u8, 0x32u8]
        },
        bytes.len() == 16 && ZxhReader::Header(ZxhVersion::One).feeds(bytes, r) ==> (r is Err <==> four_bytes(
            bytes,
            12,
        ) == 0 || four_bytes(bytes, 12) > 4 * 1024 * 1024),
        bytes.len() == 48 && ZxhReader::Header(ZxhVersion::Two).feeds(bytes, r) ==> (r is Err <==> four_bytes(
            bytes,
            44,
        ) == 0 || four_bytes(bytes, 44) > 4 * 1024 * 1024),
{
    if bytes.len() == 4 {
        lemma_magic(bytes);
        assert(bytes.take(4) =~= bytes);
        let one = seq![0x5Au8, 0x58u8, 0x48u8, 0x31u8];
        let two = seq![0x5Au8, 0x58u8, 0x48u8, 0x32u8];
        assert(one[0] == 0x5A && one[1] == 0x58 && one[2] == 0x48 && one[3] == 0x31);
        assert(two[0] == 0x5A && two[1] == 0x58 && two[2] == 0x48 && two[3] == 0x32);
        if bytes[0] == 0x5A && bytes[1] == 0x58 && bytes[2] == 0x48 {
            if bytes[3] == 0x31 {
                assert(bytes =~= one);
            }
            if bytes[3] == 0x32 {
                assert(bytes =~= two);
            }
        }
    }
    if bytes.len() == 16 {
        lemma_four_bytes(bytes, 12);
    }
    if bytes.len() == 48 {
        lemma_four_bytes(bytes, 44);
    }
}

} // verus!

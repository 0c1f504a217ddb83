//! Reads a RIFF/WAVE file and rewrites it as 16-bit PCM, which is the only
//! shape the engine's file player accepts for call sounds. Samples stored as
//! floating point are turned into integers by a function the caller hands
//! over; everything else is done here.
use vstd::prelude::*;
use crate::message::{json_message_text, message, message_with, str_views};
use crate::text::{chars_of, decimal, push_decimal, string_of};

verus! {

/// The largest file taken in: a call sound is seconds long.
pub const MAX_INPUT: usize = 16 * 1024 * 1024;

/// What the `fmt ` chunk says of the samples.
#[derive(Clone, Copy, Debug)]
pub struct Format {
    pub encoding: u16,
    pub channels: u16,
    pub rate: u32,
    pub bits: u16,
}

// ---------------------------------------------------------------------
// Numbers stored little-endian
// ---------------------------------------------------------------------

pub open spec fn le16(b: Seq<u8>, at: int) -> nat {
    (b[at] + 256 * b[at + 1]) as nat
}

pub open spec fn le32(b: Seq<u8>, at: int) -> nat {
    (b[at] + 256 * b[at + 1] + 65536 * b[at + 2] + 16777216 * b[at + 3]) as nat
}

pub open spec fn le64(b: Seq<u8>, at: int) -> nat {
    (le32(b, at) + 4294967296 * le32(b, at + 4)) as nat
}

/// The signed 16-bit value of two bytes, low byte first.
pub open spec fn s16(lo: u8, hi: u8) -> i16 {
    let v = lo + 256 * hi;
    (if v >= 32768 {
        v - 65536
    } else {
        v
    }) as i16
}

/// The 16-bit value at `at`, low byte first.
pub fn u16_at(bytes: &[u8], at: usize) -> (r: u16)
    requires
        at + 2 <= bytes@.len(),
    ensures
        r == le16(bytes@, at as int),
{
    bytes[at] as u16 + bytes[at + 1] as u16 * 256
}

/// The 32-bit value at `at`, low byte first.
pub fn u32_at(bytes: &[u8], at: usize) -> (r: u32)
    requires
        at + 4 <= bytes@.len(),
    ensures
        r == le32(bytes@, at as int),
{
    bytes[at] as u32 + bytes[at + 1] as u32 * 256 + bytes[at + 2] as u32 * 65536 + bytes[at + 3] as u32
        * 16777216
}

fn u64_at(bytes: &[u8], at: usize) -> (r: u64)
    requires
        at + 8 <= bytes@.len(),
    ensures
        r == le64(bytes@, at as int),
{
    let n = bytes.len();
    assert(at + 8 <= n);
    let lo = u32_at(bytes, at) as u64;
    let hi = u32_at(bytes, at + 4) as u64;
    assert(hi * 4294967296 <= 18446744069414584320) by (nonlinear_arith)
        requires
            hi <= 4294967295,
    ;
    lo + hi * 4294967296
}

fn i16_from(lo: u8, hi: u8) -> (r: i16)
    ensures
        r == s16(lo, hi),
{
    let v: u32 = lo as u32 + hi as u32 * 256;
    if v >= 32768 {
        (v as i32 - 65536) as i16
    } else {
        v as i16
    }
}

// ---------------------------------------------------------------------
// The chunks of the file
// ---------------------------------------------------------------------

pub open spec fn tag_at(b: Seq<u8>, at: int, tag: Seq<u8>) -> bool {
    b.subrange(at, at + 4) == tag
}

pub open spec fn riff_tag() -> Seq<u8> {
    seq![0x52u8, 0x49u8, 0x46u8, 0x46u8]
}

pub open spec fn wave_tag() -> Seq<u8> {
    seq![0x57u8, 0x41u8, 0x56u8, 0x45u8]
}

pub open spec fn fmt_tag() -> Seq<u8> {
    seq![0x66u8, 0x6du8, 0x74u8, 0x20u8]
}

pub open spec fn data_tag() -> Seq<u8> {
    seq![0x64u8, 0x61u8, 0x74u8, 0x61u8]
}

/// What a `fmt ` chunk of at least 16 bytes says. WAVE_FORMAT_EXTENSIBLE
/// keeps the real encoding in its sub-format.
pub open spec fn format_at(b: Seq<u8>, body: int, size: nat) -> Format {
    let tag = le16(b, body);
    Format {
        encoding: (if tag == 0xFFFE && size >= 40 {
            le16(b, body + 24)
        } else {
            tag
        }) as u16,
        channels: le16(b, body + 2) as u16,
        rate: le32(b, body + 4) as u32,
        bits: le16(b, body + 14) as u16,
    }
}

/// The chunks from `at` on: the format the last `fmt ` chunk gave, and the
/// place of the first `data` chunk's samples; or what is wrong.
pub open spec fn walk(b: Seq<u8>, at: nat, format: Option<Format>) -> Result<(Format, nat, nat), Seq<char>>
    decreases b.len() + 1 - at,
{
    if at + 8 > b.len() {
        Err("WAV_NO_DATA"@)
    } else {
        let size = le32(b, (at + 4) as int);
        let body = at + 8;
        let end = body + size;
        if end > b.len() {
            Err("WAV_BROKEN"@)
        } else if tag_at(b, at as int, fmt_tag()) && size >= 16 {
            walk(b, end + size % 2, Some(format_at(b, body as int, size)))
        } else if tag_at(b, at as int, data_tag()) {
            match format {
                Some(f) => Ok((f, body, end)),
                None => Err("WAV_NO_FMT"@),
            }
        } else {
            walk(b, end + size % 2, format)
        }
    }
}

/// The format of a WAVE file and where its samples are, or what is wrong.
pub open spec fn parse_spec(b: Seq<u8>) -> Result<(Format, nat, nat), Seq<char>> {
    if b.len() < 12 || !tag_at(b, 0, riff_tag()) || !tag_at(b, 8, wave_tag()) {
        Err("WAV_NOT_WAV"@)
    } else {
        walk(b, 12, None)
    }
}

fn tag_is(bytes: &[u8], at: usize, a: u8, b: u8, c: u8, d: u8) -> (r: bool)
    requires
        at + 4 <= bytes@.len(),
    ensures
        r == tag_at(bytes@, at as int, seq![a, b, c, d]),
{
    let r = bytes[at] == a && bytes[at + 1] == b && bytes[at + 2] == c && bytes[at + 3] == d;
    proof {
        let s = bytes@.subrange(at as int, at + 4);
        if r {
            assert(s =~= seq![a, b, c, d]);
        } else {
            assert(s[0] == bytes@[at as int] && s[1] == bytes@[at + 1] && s[2] == bytes@[at + 2]
                && s[3] == bytes@[at + 3]);
        }
    }
    r
}

/// Reads the chunks: the format of the samples, and where they are, from
/// the first byte up to the byte after the last.
pub fn parse(bytes: &[u8]) -> (r: Result<(Format, usize, usize), String>)
    ensures
        match r {
            Ok((f, s, e)) => parse_spec(bytes@) == Ok::<(Format, nat, nat), Seq<char>>(
                (f, s as nat, e as nat),
            ),
            Err(m) => parse_spec(bytes@) == Err::<(Format, nat, nat), Seq<char>>(m@),
        },
{
    if bytes.len() < 12 || !tag_is(bytes, 0, 0x52, 0x49, 0x46, 0x46) || !tag_is(
        bytes,
        8,
        0x57,
        0x41,
        0x56,
        0x45,
    ) {
        return Err(message("WAV_NOT_WAV"));
    }
    let mut format: Option<Format> = None;
    let mut at: usize = 12;
    while at <= bytes.len() && bytes.len() - at >= 8
        invariant
            12 <= at,
            parse_spec(bytes@) == walk(bytes@, at as nat, format),
        decreases bytes.len() - at,
    {
        let size = u32_at(bytes, at + 4);
        let body = at + 8;
        if size as usize > bytes.len() - body {
            return Err(message("WAV_BROKEN"));
        }
        let end = body + size as usize;
        let odd: usize = (size % 2) as usize;
        let fmt = tag_is(bytes, at, 0x66, 0x6d, 0x74, 0x20);
        if fmt && size >= 16 {
            let mut encoding = u16_at(bytes, body);
            // WAVE_FORMAT_EXTENSIBLE keeps the real encoding in the sub-format.
            if encoding == 0xFFFE && size >= 40 {
                encoding = u16_at(bytes, body + 24);
            }
            format = Some(
                Format {
                    encoding,
                    channels: u16_at(bytes, body + 2),
                    rate: u32_at(bytes, body + 4),
                    bits: u16_at(bytes, body + 14),
                },
            );
        } else if tag_is(bytes, at, 0x64, 0x61, 0x74, 0x61) {
            return match format {
                Some(f) => Ok((f, body, end)),
                None => Err(message("WAV_NO_FMT")),
            };
        }
        if end == bytes.len() && odd == 1 {
            assert(walk(bytes@, (end + odd) as nat, format) == Err::<(Format, nat, nat), Seq<char>>(
                "WAV_NO_DATA"@,
            ));
            return Err(message("WAV_NO_DATA"));
        }
        at = end + odd;
    }
    Err(message("WAV_NO_DATA"))
}

// ---------------------------------------------------------------------
// The samples
// ---------------------------------------------------------------------

/// Whether the samples are stored as floating point, which the caller's
/// function turns into integers.
pub open spec fn is_float(f: Format) -> bool {
    f.encoding == 3 && (f.bits == 32 || f.bits == 64)
}

/// Whether the samples can be turned into 16-bit PCM.
pub open spec fn supported_format(f: Format) -> bool {
    (f.encoding == 1 && (f.bits == 8 || f.bits == 16 || f.bits == 24 || f.bits == 32)) || is_float(f)
}

/// The 16-bit value of an integer sample at `at`.
pub open spec fn pcm_sample(f: Format, d: Seq<u8>, at: int) -> i16 {
    if f.bits == 8 {
        ((d[at] - 128) * 256) as i16
    } else if f.bits == 16 {
        s16(d[at], d[at + 1])
    } else if f.bits == 24 {
        s16(d[at + 1], d[at + 2])
    } else {
        s16(d[at + 2], d[at + 3])
    }
}

/// The raw bits of a floating-point sample at `at`.
pub open spec fn float_bits(f: Format, d: Seq<u8>, at: int) -> u64 {
    if f.bits == 32 {
        le32(d, at) as u64
    } else {
        le64(d, at) as u64
    }
}

pub open spec fn width_of(f: Format) -> nat {
    (f.bits / 8) as nat
}

/// Why the samples cannot be read, if they cannot.
pub open spec fn samples_error(f: Format, d: Seq<u8>) -> Option<Seq<char>> {
    if width_of(f) == 0 || d.len() < width_of(f) {
        Some("WAV_EMPTY"@)
    } else if !supported_format(f) {
        Some(
            json_message_text(
                "WAV_FORMAT_UNSUPPORTED"@,
                seq![decimal(f.encoding as nat), decimal(f.bits as nat)],
            ),
        )
    } else {
        None
    }
}

/// The samples, every one turned into 16 bits: integers by their top bits,
/// floating point by `decode`, which is given the sample's bits and width.
pub fn samples(f: Format, data: &[u8], decode: impl Fn(u64, u16) -> i16) -> (r: Result<
    Vec<i16>,
    String,
>)
    requires
        forall|raw: u64, bits: u16| decode.requires((raw, bits)),
    ensures
        match r {
            Err(e) => samples_error(f, data@) == Some(e@),
            Ok(out) => {
                &&& samples_error(f, data@) is None
                &&& out@.len() == data@.len() / width_of(f)
                &&& forall|i: int|
                    0 <= i < out@.len() ==> if is_float(f) {
                        decode.ensures(
                            (float_bits(f, data@, i * width_of(f)), f.bits),
                            #[trigger] out@[i],
                        )
                    } else {
                        out@[i] == pcm_sample(f, data@, i * width_of(f))
                    }
            },
        },
{
    let width: usize = (f.bits / 8) as usize;
    if width == 0 || data.len() < width {
        return Err(message("WAV_EMPTY"));
    }
    let float = f.encoding == 3 && (f.bits == 32 || f.bits == 64);
    if !((f.encoding == 1 && (f.bits == 8 || f.bits == 16 || f.bits == 24 || f.bits == 32)) || float) {
        let mut e = Vec::new();
        push_decimal(&mut e, f.encoding as u64);
        let mut b = Vec::new();
        push_decimal(&mut b, f.bits as u64);
        let es = string_of(&e);
        let bs = string_of(&b);
        let values = [es.as_str(), bs.as_str()];
        assert(str_views(values@) =~= seq![decimal(f.encoding as nat), decimal(f.bits as nat)]);
        return Err(message_with("WAV_FORMAT_UNSUPPORTED", &values));
    }
    let count = data.len() / width;
    let mut out: Vec<i16> = Vec::new();
    let mut i: usize = 0;
    while i < count
        invariant
            i <= count == data@.len() / width_of(f),
            width == width_of(f),
            width > 0,
            supported_format(f),
            float == is_float(f),
            forall|raw: u64, bits: u16| decode.requires((raw, bits)),
            out@.len() == i,
            forall|k: int|
                0 <= k < i ==> if is_float(f) {
                    decode.ensures((float_bits(f, data@, k * width_of(f)), f.bits), #[trigger] out@[k])
                } else {
                    out@[k] == pcm_sample(f, data@, k * width_of(f))
                },
        decreases count - i,
    {
        assert(i * width + width <= data.len()) by (nonlinear_arith)
            requires
                i < count,
                count == data.len() / width,
                width > 0,
        ;
        let at = i * width;
        let value: i16 = if float {
            let raw = if f.bits == 32 {
                u32_at(data, at) as u64
            } else {
                u64_at(data, at)
            };
            decode(raw, f.bits)
        } else if f.bits == 8 {
            ((data[at] as i32 - 128) * 256) as i16
        } else if f.bits == 16 {
            i16_from(data[at], data[at + 1])
        } else if f.bits == 24 {
            i16_from(data[at + 1], data[at + 2])
        } else {
            i16_from(data[at + 2], data[at + 3])
        };
        out.push(value);
        i += 1;
    }
    Ok(out)
}

// ---------------------------------------------------------------------
// The file that comes out
// ---------------------------------------------------------------------

pub open spec fn le16_bytes(v: u16) -> Seq<u8> {
    seq![(v % 256) as u8, (v / 256) as u8]
}

pub open spec fn le32_bytes(v: u32) -> Seq<u8> {
    seq![(v % 256) as u8, ((v / 256) % 256) as u8, ((v / 65536) % 256) as u8, (v / 16777216) as u8]
}

pub open spec fn unsigned16(v: i16) -> u16 {
    (if v < 0 {
        v + 65536
    } else {
        v as int
    }) as u16
}

pub open spec fn sample_bytes(s: Seq<i16>) -> Seq<u8>
    decreases s.len(),
{
    if s.len() == 0 {
        Seq::empty()
    } else {
        sample_bytes(s.drop_last()) + le16_bytes(unsigned16(s.last()))
    }
}

/// The header of a 16-bit PCM file with the given channels and rate, and
/// `payload` bytes of samples.
#[verifier::opaque]
pub open spec fn pcm16_header(channels: u16, rate: u32, payload: nat) -> Seq<u8> {
    riff_tag() + le32_bytes((36 + payload) as u32) + wave_tag() + fmt_tag() + le32_bytes(16)
        + le16_bytes(1) + le16_bytes(channels) + le32_bytes(rate) + le32_bytes(
        (rate * channels * 2) as u32,
    ) + le16_bytes((channels * 2) as u16) + le16_bytes(16) + data_tag() + le32_bytes(
        payload as u32,
    )
}

fn push_le16(out: &mut Vec<u8>, v: u16)
    ensures
        final(out)@ == old(out)@ + le16_bytes(v),
{
    out.push((v % 256) as u8);
    out.push((v / 256) as u8);
    assert(out@ =~= old(out)@ + le16_bytes(v));
}

fn push_le32(out: &mut Vec<u8>, v: u32)
    ensures
        final(out)@ == old(out)@ + le32_bytes(v),
{
    out.push((v % 256) as u8);
    out.push(((v / 256) % 256) as u8);
    out.push(((v / 65536) % 256) as u8);
    out.push((v / 16777216) as u8);
    assert(out@ =~= old(out)@ + le32_bytes(v));
}

fn push_tag(out: &mut Vec<u8>, a: u8, b: u8, c: u8, d: u8)
    ensures
        final(out)@ == old(out)@ + seq![a, b, c, d],
{
    out.push(a);
    out.push(b);
    out.push(c);
    out.push(d);
    assert(out@ =~= old(out)@ + seq![a, b, c, d]);
}

/// Converts any supported WAV into 16-bit PCM with the original rate and
/// channels. Samples stored as floating point go through `decode`.
pub fn to_pcm16(bytes: &[u8], decode: impl Fn(u64, u16) -> i16) -> (r: Result<Vec<u8>, String>)
    requires
        forall|raw: u64, bits: u16| decode.requires((raw, bits)),
    ensures
        bytes@.len() > MAX_INPUT ==> (r matches Err(e) && e@ == "WAV_TOO_LARGE"@),
        bytes@.len() <= MAX_INPUT ==> match parse_spec(bytes@) {
            Err(m) => (r matches Err(e) && e@ == m),
            Ok((f, s, e)) => if f.channels == 0 || f.rate == 0 {
                (r matches Err(x) && x@ == "WAV_HEADER_INVALID"@)
            } else if samples_error(f, bytes@.subrange(s as int, e as int)) is Some {
                (r matches Err(x) && Some(x@) == samples_error(f, bytes@.subrange(s as int, e as int)))
            } else if f.rate * f.channels * 2 > u32::MAX {
                (r matches Err(x) && x@ == "WAV_HEADER_INVALID"@)
            } else {
                (r matches Ok(out) && exists|samples: Seq<i16>|
                    #![trigger sample_bytes(samples)]
                    {
                        &&& out@ == pcm16_header(f.channels, f.rate, samples.len() * 2)
                            + sample_bytes(samples)
                        &&& samples.len() == (e - s) / (width_of(f) as int)
                        &&& forall|i: int|
                            0 <= i < samples.len() ==> if is_float(f) {
                                decode.ensures(
                                    (
                                        float_bits(f, bytes@.subrange(s as int, e as int), i * width_of(f)),
                                        f.bits,
                                    ),
                                    #[trigger] samples[i],
                                )
                            } else {
                                samples[i] == pcm_sample(
                                    f,
                                    bytes@.subrange(s as int, e as int),
                                    i * width_of(f),
                                )
                            }
                    })
            },
        },
{
    if bytes.len() > MAX_INPUT {
        return Err(message("WAV_TOO_LARGE"));
    }
    let (f, start, end) = match parse(bytes) {
        Ok(found) => found,
        Err(e) => return Err(e),
    };
    if f.channels == 0 || f.rate == 0 {
        return Err(message("WAV_HEADER_INVALID"));
    }
    assert(start <= end <= bytes.len()) by {
        lemma_walk_bounds(bytes@, 12, None);
    }
    let mut data: Vec<u8> = Vec::new();
    let mut k: usize = start;
    while k < end
        invariant
            start <= k <= end <= bytes@.len(),
            data@ == bytes@.subrange(start as int, k as int),
        decreases end - k,
    {
        data.push(bytes[k]);
        assert(data@ =~= bytes@.subrange(start as int, k + 1));
        k += 1;
    }
    let values = match samples(f, &data, decode) {
        Ok(v) => v,
        Err(e) => return Err(e),
    };
    let block: u32 = f.channels as u32 * 2;
    // A rate large enough to overflow here describes no sound anyone recorded.
    assert(f.rate as u64 * block as u64 <= 0xFFFF_FFFF * 131070) by (nonlinear_arith)
        requires
            f.rate <= 0xFFFF_FFFF,
            block <= 131070,
    ;
    assert(f.rate as int * block as int == f.rate * f.channels * 2) by (nonlinear_arith)
        requires
            block == f.channels * 2,
    ;
    if f.rate as u64 * block as u64 > 0xFFFF_FFFF {
        return Err(message("WAV_HEADER_INVALID"));
    }
    let bytes_per_second: u32 = f.rate * block;
    assert(values@.len() <= data@.len()) by (nonlinear_arith)
        requires
            values@.len() == data@.len() / width_of(f),
            width_of(f) > 0,
    ;
    let payload: usize = values.len() * 2;
    let mut out: Vec<u8> = Vec::new();
    push_tag(&mut out, 0x52, 0x49, 0x46, 0x46);
    push_le32(&mut out, (36 + payload) as u32);
    push_tag(&mut out, 0x57, 0x41, 0x56, 0x45);
    push_tag(&mut out, 0x66, 0x6d, 0x74, 0x20);
    push_le32(&mut out, 16);
    push_le16(&mut out, 1);
    push_le16(&mut out, f.channels);
    push_le32(&mut out, f.rate);
    push_le32(&mut out, bytes_per_second);
    push_le16(&mut out, #[verifier::truncate] (block as u16));
    push_le16(&mut out, 16);
    push_tag(&mut out, 0x64, 0x61, 0x74, 0x61);
    push_le32(&mut out, payload as u32);
    let ghost header = out@;
    assert(header =~= pcm16_header(f.channels, f.rate, payload as nat)) by {
        reveal(pcm16_header);
    }
    let mut j: usize = 0;
    while j < values.len()
        invariant
            j <= values@.len(),
            out@ == header + sample_bytes(values@.take(j as int)),
        decreases values.len() - j,
    {
        let v = values[j];
        let u: u16 = if v < 0 {
            (v as i32 + 65536) as u16
        } else {
            v as u16
        };
        push_le16(&mut out, u);
        assert(values@.take(j + 1).drop_last() =~= values@.take(j as int));
        j += 1;
    }
    assert(values@.take(values.len() as int) =~= values@);
    Ok(out)
}

proof fn lemma_walk_bounds(b: Seq<u8>, at: nat, format: Option<Format>)
    ensures
        walk(b, at, format) matches Ok((f, s, e)) ==> s <= e <= b.len(),
    decreases b.len() + 1 - at,
{
    if at + 8 <= b.len() {
        let size = le32(b, (at + 4) as int);
        let end = at + 8 + size;
        if end <= b.len() {
            if tag_at(b, at as int, fmt_tag()) && size >= 16 {
                lemma_walk_bounds(b, end + size % 2, Some(format_at(b, (at + 8) as int, size)));
            } else if !tag_at(b, at as int, data_tag()) {
                lemma_walk_bounds(b, end + size % 2, format);
            }
        }
    }
}

proof fn lemma_le16_bytes(v: u16, b: Seq<u8>, at: int)
    requires
        0 <= at,
        at + 2 <= b.len(),
        b.subrange(at, at + 2) == le16_bytes(v),
    ensures
        le16(b, at) == v,
{
    assert(b[at] == le16_bytes(v)[0]);
    assert(b[at + 1] == le16_bytes(v)[1]);
}

proof fn lemma_le32_bytes(v: u32, b: Seq<u8>, at: int)
    requires
        0 <= at,
        at + 4 <= b.len(),
        b.subrange(at, at + 4) == le32_bytes(v),
    ensures
        le32(b, at) == v,
{
    assert(b[at] == le32_bytes(v)[0]);
    assert(b[at + 1] == le32_bytes(v)[1]);
    assert(b[at + 2] == le32_bytes(v)[2]);
    assert(b[at + 3] == le32_bytes(v)[3]);
    assert((v % 256) + 256 * ((v / 256) % 256) + 65536 * ((v / 65536) % 256) + 16777216 * (v / 16777216) == v)
        by (nonlinear_arith);
}

proof fn lemma_sample_bytes(s: Seq<i16>)
    ensures
        sample_bytes(s).len() == 2 * s.len(),
        forall|i: int| 0 <= i < s.len() ==> s16(#[trigger] sample_bytes(s)[2 * i], sample_bytes(s)[2 * i + 1]) == s[i],
    decreases s.len(),
{
    if s.len() > 0 {
        let init = s.drop_last();
        lemma_sample_bytes(init);
        let v = s.last();
        let u = unsigned16(v);
        let tail = le16_bytes(u);
        assert forall|i: int| 0 <= i < s.len() implies s16(#[trigger] sample_bytes(s)[2 * i], sample_bytes(s)[2 * i + 1]) == s[i] by {
            if i < s.len() - 1 {
                assert(sample_bytes(s)[2 * i] == sample_bytes(init)[2 * i]);
                assert(sample_bytes(s)[2 * i + 1] == sample_bytes(init)[2 * i + 1]);
                assert(init[i] == s[i]);
            } else {
                assert(sample_bytes(s)[2 * i] == tail[0]);
                assert(sample_bytes(s)[2 * i + 1] == tail[1]);
                assert((u % 256) + 256 * (u / 256) == u);
            }
        }
    }
}

/// What the conversion writes: the header of 16-bit PCM and the samples.
pub open spec fn pcm16_file(channels: u16, rate: u32, samples: Seq<i16>) -> Seq<u8> {
    pcm16_header(channels, rate, samples.len() * 2) + sample_bytes(samples)
}

pub open spec fn pcm16_format(channels: u16, rate: u32) -> Format {
    Format { encoding: 1, channels, rate, bits: 16 }
}

proof fn lemma_header_tags(channels: u16, rate: u32, payload: nat)
    ensures
        pcm16_header(channels, rate, payload).len() == 44,
        pcm16_header(channels, rate, payload).subrange(0, 4) == riff_tag(),
        pcm16_header(channels, rate, payload).subrange(8, 12) == wave_tag(),
        pcm16_header(channels, rate, payload).subrange(12, 16) == fmt_tag(),
        pcm16_header(channels, rate, payload).subrange(36, 40) == data_tag(),
{
    let h = pcm16_header(channels, rate, payload);
    reveal(pcm16_header);
    assert(h.subrange(0, 4) =~= riff_tag());
    assert(h.subrange(8, 12) =~= wave_tag());
    assert(h.subrange(12, 16) =~= fmt_tag());
    assert(h.subrange(36, 40) =~= data_tag());
}

proof fn lemma_header_fields(channels: u16, rate: u32, payload: nat)
    ensures
        pcm16_header(channels, rate, payload).subrange(16, 20) == le32_bytes(16),
        pcm16_header(channels, rate, payload).subrange(20, 22) == le16_bytes(1),
        pcm16_header(channels, rate, payload).subrange(22, 24) == le16_bytes(channels),
        pcm16_header(channels, rate, payload).subrange(24, 28) == le32_bytes(rate),
        pcm16_header(channels, rate, payload).subrange(34, 36) == le16_bytes(16),
        pcm16_header(channels, rate, payload).subrange(40, 44) == le32_bytes(payload as u32),
{
    let h = pcm16_header(channels, rate, payload);
    reveal(pcm16_header);
    assert(h.subrange(16, 20) =~= le32_bytes(16));
    assert(h.subrange(20, 22) =~= le16_bytes(1));
    assert(h.subrange(22, 24) =~= le16_bytes(channels));
    assert(h.subrange(24, 28) =~= le32_bytes(rate));
    assert(h.subrange(34, 36) =~= le16_bytes(16));
    assert(h.subrange(40, 44) =~= le32_bytes(payload as u32));
}

proof fn lemma_prefix_tag(b: Seq<u8>, h: Seq<u8>, at: int, tag: Seq<u8>)
    requires
        0 <= at,
        at + 4 <= 44,
        b.len() >= 44,
        h.len() == 44,
        forall|k: int| 0 <= k < 44 ==> #[trigger] b[k] == h[k],
        h.subrange(at, at + 4) == tag,
    ensures
        tag_at(b, at, tag),
{
    assert(b.subrange(at, at + 4) =~= h.subrange(at, at + 4));
}

proof fn lemma_prefix16(b: Seq<u8>, h: Seq<u8>, at: int, v: u16)
    requires
        0 <= at,
        at + 2 <= 44,
        b.len() >= 44,
        h.len() == 44,
        forall|k: int| 0 <= k < 44 ==> #[trigger] b[k] == h[k],
        h.subrange(at, at + 2) == le16_bytes(v),
    ensures
        le16(b, at) == v,
{
    assert(b.subrange(at, at + 2) =~= h.subrange(at, at + 2));
    lemma_le16_bytes(v, b, at);
}

proof fn lemma_prefix32(b: Seq<u8>, h: Seq<u8>, at: int, v: u32)
    requires
        0 <= at,
        at + 4 <= 44,
        b.len() >= 44,
        h.len() == 44,
        forall|k: int| 0 <= k < 44 ==> #[trigger] b[k] == h[k],
        h.subrange(at, at + 4) == le32_bytes(v),
    ensures
        le32(b, at) == v,
{
    assert(b.subrange(at, at + 4) =~= h.subrange(at, at + 4));
    lemma_le32_bytes(v, b, at);
}

/// The facts of the header the reader uses, of the whole file.
proof fn lemma_file_header(channels: u16, rate: u32, samples: Seq<i16>)
    requires
        2 * samples.len() <= u32::MAX,
    ensures
        ({
            let b = pcm16_file(channels, rate, samples);
            let payload = 2 * samples.len();
            &&& b.len() == 44 + payload
            &&& tag_at(b, 0, riff_tag())
            &&& tag_at(b, 8, wave_tag())
            &&& tag_at(b, 12, fmt_tag())
            &&& tag_at(b, 36, data_tag())
            &&& !tag_at(b, 36, fmt_tag())
            &&& le32(b, 16) == 16
            &&& le16(b, 20) == 1
            &&& le16(b, 22) == channels
            &&& le32(b, 24) == rate
            &&& le16(b, 34) == 16
            &&& le32(b, 40) == payload
            &&& b.subrange(44, 44 + payload as int) == sample_bytes(samples)
        }),
{
    let payload = samples.len() * 2;
    let h = pcm16_header(channels, rate, payload);
    let b = pcm16_file(channels, rate, samples);
    lemma_header_tags(channels, rate, payload);
    lemma_header_fields(channels, rate, payload);
    lemma_file_prefix(channels, rate, samples);
    lemma_prefix_tag(b, h, 0, riff_tag());
    lemma_prefix_tag(b, h, 8, wave_tag());
    lemma_prefix_tag(b, h, 12, fmt_tag());
    lemma_prefix_tag(b, h, 36, data_tag());
    lemma_prefix32(b, h, 16, 16);
    lemma_prefix16(b, h, 20, 1);
    lemma_prefix16(b, h, 22, channels);
    lemma_prefix32(b, h, 24, rate);
    lemma_prefix16(b, h, 34, 16);
    lemma_prefix32(b, h, 40, payload as u32);
    assert(b.subrange(36, 40)[0] == data_tag()[0]);
}

proof fn lemma_file_prefix(channels: u16, rate: u32, samples: Seq<i16>)
    ensures
        pcm16_file(channels, rate, samples).len() == 44 + 2 * samples.len(),
        forall|k: int| 0 <= k < 44 ==> #[trigger] pcm16_file(channels, rate, samples)[k]
            == pcm16_header(channels, rate, samples.len() * 2)[k],
        pcm16_file(channels, rate, samples).subrange(44, 44 + 2 * samples.len() as int) == sample_bytes(samples),
{
    let b = pcm16_file(channels, rate, samples);
    lemma_header_tags(channels, rate, samples.len() * 2);
    lemma_sample_bytes(samples);
    assert(b.subrange(44, 44 + 2 * samples.len() as int) =~= sample_bytes(samples));
}

/// A file the conversion wrote is read as 16-bit PCM with its channels, its
/// rate and its samples, so that converting it again, which reads `again`
/// from it, writes it unchanged.
pub proof fn law_a_converted_file_converts_to_itself(
    channels: u16,
    rate: u32,
    samples: Seq<i16>,
    again: Seq<i16>,
)
    requires
        channels > 0,
        rate > 0,
        rate * channels * 2 <= u32::MAX,
        samples.len() > 0,
        44 + 2 * samples.len() <= MAX_INPUT,
        again.len() == samples.len(),
        forall|i: int|
            0 <= i < again.len() ==> #[trigger] again[i] == pcm_sample(
                pcm16_format(channels, rate),
                sample_bytes(samples),
                i * 2,
            ),
    ensures
        parse_spec(pcm16_file(channels, rate, samples)) == Ok::<(Format, nat, nat), Seq<char>>(
            (pcm16_format(channels, rate), 44nat, (44 + 2 * samples.len()) as nat),
        ),
        pcm16_file(channels, rate, samples).subrange(44, 44 + 2 * samples.len() as int) == sample_bytes(samples),
        samples_error(pcm16_format(channels, rate), sample_bytes(samples)) is None,
        pcm16_file(channels, rate, again) == pcm16_file(channels, rate, samples),
{
    let n = samples.len();
    let payload = 2 * n;
    let f = pcm16_format(channels, rate);
    let b = pcm16_file(channels, rate, samples);
    let data = sample_bytes(samples);
    lemma_file_header(channels, rate, samples);
    lemma_sample_bytes(samples);
    assert(format_at(b, 20, 16) == f);
    assert(walk(b, 36, Some(f)) == Ok::<(Format, nat, nat), Seq<char>>((f, 44nat, (44 + payload) as nat)));
    assert(walk(b, 12, None) == walk(b, 36, Some(f)));
    assert forall|i: int| 0 <= i < n implies #[trigger] again[i] == samples[i] by {
        assert(pcm_sample(f, data, i * 2) == s16(data[2 * i], data[2 * i + 1]));
    }
    assert(again =~= samples);
}

/// A file laid out as editors write WAVE_FORMAT_EXTENSIBLE (a 40-byte
/// `fmt ` chunk whose tag is 0xFFFE, then the `data` chunk) is read with the
/// encoding of its sub-format, the 16 bits at byte 44, and the channels, rate
/// and bits of the chunk: an extensible PCM file reads like plain PCM.
pub proof fn law_an_extensible_file_reads_its_sub_format(b: Seq<u8>)
    requires
        b.len() >= 68,
        tag_at(b, 0, riff_tag()),
        tag_at(b, 8, wave_tag()),
        tag_at(b, 12, fmt_tag()),
        le32(b, 16) == 40,
        le16(b, 20) == 0xFFFE,
        tag_at(b, 60, data_tag()),
        68 + le32(b, 64) <= b.len(),
    ensures
        parse_spec(b) == Ok::<(Format, nat, nat), Seq<char>>(
            (
                Format {
                    encoding: le16(b, 44) as u16,
                    channels: le16(b, 22) as u16,
                    rate: le32(b, 24) as u32,
                    bits: le16(b, 34) as u16,
                },
                68nat,
                (68 + le32(b, 64)) as nat,
            ),
        ),
{
    let f = format_at(b, 20, 40);
    assert(!tag_at(b, 60, fmt_tag())) by {
        assert(b.subrange(60, 64)[0] == data_tag()[0]);
    }
    assert(walk(b, 60, Some(f)) == Ok::<(Format, nat, nat), Seq<char>>((f, 68nat, (68 + le32(b, 64)) as nat)));
    assert(walk(b, 12, None) == walk(b, 60, Some(f)));
}

/// A plain file (a 16-byte `fmt ` chunk, then the `data` chunk) is read with
/// the encoding its tag names; with the extensible layout above, a file
/// whose sub-format is PCM reads exactly as the plain PCM file with the
/// same channels, rate, bits and samples.
pub proof fn law_a_plain_file_reads_its_tag(b: Seq<u8>)
    requires
        b.len() >= 44,
        tag_at(b, 0, riff_tag()),
        tag_at(b, 8, wave_tag()),
        tag_at(b, 12, fmt_tag()),
        le32(b, 16) == 16,
        tag_at(b, 36, data_tag()),
        44 + le32(b, 40) <= b.len(),
    ensures
        parse_spec(b) == Ok::<(Format, nat, nat), Seq<char>>(
            (
                Format {
                    encoding: le16(b, 20) as u16,
                    channels: le16(b, 22) as u16,
                    rate: le32(b, 24) as u32,
                    bits: le16(b, 34) as u16,
                },
                44nat,
                (44 + le32(b, 40)) as nat,
            ),
        ),
{
    let f = format_at(b, 20, 16);
    assert(!tag_at(b, 36, fmt_tag())) by {
        assert(b.subrange(36, 40)[0] == data_tag()[0]);
    }
    assert(walk(b, 36, Some(f)) == Ok::<(Format, nat, nat), Seq<char>>((f, 44nat, (44 + le32(b, 40)) as nat)));
    assert(walk(b, 12, None) == walk(b, 36, Some(f)));
}

} // verus!

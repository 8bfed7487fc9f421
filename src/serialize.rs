//! The `.frif` container: a 16-byte header followed by typed segments.
use crate::images::{
    colorspace_code, variant_code, ColorSpace, FractalVariant, ImageMetadata, SerializeError,
};
use vstd::prelude::*;

verus! {

/// Segment markers: prediction parameters, entropy header, data, end of
/// channel, end of image.
pub const MARK: u8 = 0xFF;

pub const PRD: u8 = 0xBB;

pub const EHD: u8 = 0xB2;

pub const DAT: u8 = 0xB4;

pub const EOC: u8 = 0xB8;

pub const EOI: u8 = 0xDF;

/// Prediction parameters per channel: three level groups of six taps.
pub const PARAM_COUNT: usize = 18;

/// The coded data of one channel. Predictor parameters are fixed-point
/// numbers with `PARAM_FRAC_BITS` fractional bits.
#[derive(Clone, Debug)]
pub struct ChannelData {
    pub value_predictors: Vec<i32>,
    pub width_predictors: Vec<i32>,
    pub max_freq_bits: Vec<u32>,
    pub data: Vec<u8>,
}

pub struct ChannelSpec {
    pub value: Seq<i32>,
    pub width: Seq<i32>,
    pub bits: Seq<u32>,
    pub data: Seq<u8>,
}

impl View for ChannelData {
    type V = ChannelSpec;

    open spec fn view(&self) -> ChannelSpec {
        ChannelSpec {
            value: self.value_predictors@,
            width: self.width_predictors@,
            bits: self.max_freq_bits@,
            data: self.data@,
        }
    }
}

/// An encoded image before it is laid out as bytes.
#[derive(Clone, Debug)]
pub struct CompressedImage {
    pub metadata: ImageMetadata,
    pub channel_data: Vec<ChannelData>,
}

pub open spec fn u32_le(v: u32) -> Seq<u8> {
    seq![(v & 0xff) as u8, ((v >> 8u32) & 0xff) as u8, ((v >> 16u32) & 0xff) as u8, ((v >> 24u32) & 0xff) as u8]
}

pub open spec fn u64_le(v: u64) -> Seq<u8> {
    u32_le((v & 0xffff_ffff) as u32) + u32_le((v >> 32u64) as u32)
}

pub open spec fn bytes_u32(b0: u8, b1: u8, b2: u8, b3: u8) -> u32 {
    (b0 as u32) | ((b1 as u32) << 8u32) | ((b2 as u32) << 16u32) | ((b3 as u32) << 24u32)
}

/// The little-endian `u32` at `off`.
pub open spec fn read_u32(b: Seq<u8>, off: int) -> u32 {
    bytes_u32(b[off], b[off + 1], b[off + 2], b[off + 3])
}

/// The little-endian `u64` at `off`.
pub open spec fn read_u64(b: Seq<u8>, off: int) -> u64 {
    (read_u32(b, off) as u64) | ((read_u32(b, off + 4) as u64) << 32u64)
}

pub proof fn lemma_u32_le(v: u32)
    ensures
        bytes_u32(u32_le(v)[0], u32_le(v)[1], u32_le(v)[2], u32_le(v)[3]) == v,
{
    assert(((v & 0xff) as u8 as u32) | ((((v >> 8u32) & 0xff) as u8 as u32) << 8u32) | ((((v
        >> 16u32) & 0xff) as u8 as u32) << 16u32) | ((((v >> 24u32) & 0xff) as u8 as u32)
        << 24u32) == v) by (bit_vector);
}

/// Reading back the four bytes that `u32_le` lays out gives the value.
pub proof fn lemma_read_u32(pre: Seq<u8>, v: u32, post: Seq<u8>)
    ensures
        read_u32(pre + u32_le(v) + post, pre.len() as int) == v,
{
    let b = pre + u32_le(v) + post;
    let n = pre.len() as int;
    assert(b[n] == u32_le(v)[0]);
    assert(b[n + 1] == u32_le(v)[1]);
    assert(b[n + 2] == u32_le(v)[2]);
    assert(b[n + 3] == u32_le(v)[3]);
    lemma_u32_le(v);
}

pub fn push_u32_le(out: &mut Vec<u8>, v: u32)
    ensures
        final(out)@ == old(out)@ + u32_le(v),
{
    out.push((v & 0xff) as u8);
    out.push(((v >> 8u32) & 0xff) as u8);
    out.push(((v >> 16u32) & 0xff) as u8);
    out.push(((v >> 24u32) & 0xff) as u8);
    assert(final(out)@ =~= old(out)@ + u32_le(v));
}

pub fn push_u64_le(out: &mut Vec<u8>, v: u64)
    ensures
        final(out)@ == old(out)@ + u64_le(v),
{
    let ghost start = out@;
    push_u32_le(out, (v & 0xffff_ffff) as u32);
    push_u32_le(out, (v >> 32u64) as u32);
    assert(out@ =~= start + u64_le(v));
}

fn get_u32(b: &Vec<u8>, off: usize) -> (r: u32)
    requires
        off + 4 <= b@.len(),
    ensures
        r == read_u32(b@, off as int),
{
    let _n = b.len();
    (b[off] as u32) | ((b[off + 1] as u32) << 8u32) | ((b[off + 2] as u32) << 16u32) | ((b[off
        + 3] as u32) << 24u32)
}

fn get_u64(b: &Vec<u8>, off: usize) -> (r: u64)
    requires
        off + 8 <= b@.len(),
    ensures
        r == read_u64(b@, off as int),
{
    let _n = b.len();
    (get_u32(b, off) as u64) | ((get_u32(b, off + 4) as u64) << 32u64)
}

/// The 16-byte prefix: signature, height, width and the metadata word.
pub open spec fn mdat_word(m: ImageMetadata) -> u32 {
    (colorspace_code(m.colorspace) << 30u32) | (variant_code(m.variant) << 28u32)
}

pub open spec fn signature() -> Seq<u8> {
    seq![0x66u8, 0x72u8, 0x69u8, 0x66u8]
}

pub open spec fn header_bytes(m: ImageMetadata) -> Seq<u8> {
    signature() + u32_le(m.height) + u32_le(m.width) + u32_le(mdat_word(m))
}

pub open spec fn colorspace_from(c: u32) -> Option<ColorSpace> {
    if c == 1 {
        Some(ColorSpace::Luma)
    } else if c == 2 {
        Some(ColorSpace::RGB)
    } else if c == 3 {
        Some(ColorSpace::YCbCr)
    } else {
        None
    }
}

pub open spec fn variant_from(c: u32) -> Option<FractalVariant> {
    if c == 1 {
        Some(FractalVariant::TameTwindragon)
    } else if c == 2 {
        Some(FractalVariant::Twindragon)
    } else if c == 3 {
        Some(FractalVariant::Boxes)
    } else {
        None
    }
}

/// What the header of a byte stream says.
pub open spec fn parse_header_spec(b: Seq<u8>) -> Result<ImageMetadata, SerializeError> {
    if b.len() < 4 || b.subrange(0, 4) != signature() {
        Err(SerializeError::InvalidSignature)
    } else if b.len() < 16 {
        Err(SerializeError::MalformedImageBytes)
    } else {
        let md = read_u32(b, 12);
        match (colorspace_from((md >> 30u32) & 3), variant_from((md >> 28u32) & 3)) {
            (Some(c), Some(v)) => Ok(
                ImageMetadata { height: read_u32(b, 4), width: read_u32(b, 8), colorspace: c, variant: v },
            ),
            _ => Err(SerializeError::InvalidMetadata),
        }
    }
}

pub fn encode_header(m: &ImageMetadata, out: &mut Vec<u8>)
    ensures
        final(out)@ == old(out)@ + header_bytes(*m),
{
    let ghost start = out@;
    out.push(0x66u8);
    out.push(0x72u8);
    out.push(0x69u8);
    out.push(0x66u8);
    assert(out@ =~= start + signature());
    push_u32_le(out, m.height);
    push_u32_le(out, m.width);
    let mdat: u32 = (m.colorspace.get_encoding() << 30u32) | (m.variant.get_encoding() << 28u32);
    push_u32_le(out, mdat);
    assert(out@ =~= start + header_bytes(*m));
}

pub fn parse_header(b: &Vec<u8>) -> (r: Result<ImageMetadata, SerializeError>)
    ensures
        r == parse_header_spec(b@),
{
    if b.len() < 4 || b[0] != 0x66u8 || b[1] != 0x72u8 || b[2] != 0x69u8 || b[3] != 0x66u8 {
        proof {
            if b@.len() >= 4 {
                assert(b@.subrange(0, 4)[0] == b@[0]);
                assert(b@.subrange(0, 4)[1] == b@[1]);
                assert(b@.subrange(0, 4)[2] == b@[2]);
                assert(b@.subrange(0, 4)[3] == b@[3]);
            }
        }
        return Err(SerializeError::InvalidSignature);
    }
    assert(b@.subrange(0, 4) =~= signature());
    if b.len() < 16 {
        return Err(SerializeError::MalformedImageBytes);
    }
    let height = get_u32(b, 4);
    let width = get_u32(b, 8);
    let md = get_u32(b, 12);
    let cs: u32 = (md >> 30u32) & 3;
    let vs: u32 = (md >> 28u32) & 3;
    assert(cs <= 3 && vs <= 3) by (bit_vector)
        requires
            cs == (md >> 30u32) & 3,
            vs == (md >> 28u32) & 3,
    ;
    let colorspace = match ColorSpace::from_encoding(cs as u8) {
        Ok(c) => c,
        Err(e) => {
            return Err(e);
        },
    };
    let variant = match FractalVariant::from_encoding(vs as u8) {
        Ok(v) => v,
        Err(e) => {
            return Err(e);
        },
    };
    Ok(ImageMetadata { height, width, colorspace, variant })
}

/// Every header reads back as the metadata it was written from, so the
/// 16-byte prefix determines the metadata and the metadata the prefix.
pub proof fn lemma_header_round_trip(m: ImageMetadata, rest: Seq<u8>)
    ensures
        header_bytes(m).len() == 16,
        parse_header_spec(header_bytes(m) + rest) == Ok::<ImageMetadata, SerializeError>(m),
{
    let b = header_bytes(m) + rest;
    assert(b.subrange(0, 4) =~= signature());
    lemma_read_u32(signature(), m.height, u32_le(m.width) + u32_le(mdat_word(m)) + rest);
    assert(b =~= signature() + u32_le(m.height) + (u32_le(m.width) + u32_le(mdat_word(m)) + rest));
    lemma_read_u32(signature() + u32_le(m.height), m.width, u32_le(mdat_word(m)) + rest);
    assert(b =~= signature() + u32_le(m.height) + u32_le(m.width) + (u32_le(mdat_word(m)) + rest));
    lemma_read_u32(signature() + u32_le(m.height) + u32_le(m.width), mdat_word(m), rest);
    let c = colorspace_code(m.colorspace);
    let v = variant_code(m.variant);
    assert(1 <= c <= 3 && 1 <= v <= 3);
    assert((((c << 30u32) | (v << 28u32)) >> 30u32) & 3 == c) by (bit_vector)
        requires
            1 <= c <= 3,
            1 <= v <= 3,
    ;
    assert((((c << 30u32) | (v << 28u32)) >> 28u32) & 3 == v) by (bit_vector)
        requires
            1 <= c <= 3,
            1 <= v <= 3,
    ;
}


pub open spec fn marker(kind: u8) -> Seq<u8> {
    seq![MARK, kind]
}

/// Each parameter as a little-endian 32-bit word.
pub open spec fn words_le(s: Seq<i32>) -> Seq<u8>
    decreases s.len(),
{
    if s.len() == 0 {
        Seq::empty()
    } else {
        words_le(s.drop_last()) + u32_le(s.last() as u32)
    }
}

/// One entropy-header segment per bucket.
pub open spec fn ehd_bytes(bits: Seq<u32>) -> Seq<u8>
    decreases bits.len(),
{
    if bits.len() == 0 {
        Seq::empty()
    } else {
        ehd_bytes(bits.drop_last()) + marker(EHD) + u32_le(bits.last())
    }
}

/// The prediction segment of a channel.
pub open spec fn prd_bytes(c: ChannelSpec) -> Seq<u8> {
    marker(PRD) + words_le(c.value) + words_le(c.width)
}

/// The data segment of a channel, and its end mark.
pub open spec fn dat_bytes(c: ChannelSpec) -> Seq<u8> {
    marker(DAT) + u64_le(c.data.len() as u64) + c.data + marker(EOC)
}

pub open spec fn channel_bytes(c: ChannelSpec) -> Seq<u8> {
    prd_bytes(c) + ehd_bytes(c.bits) + dat_bytes(c)
}

pub open spec fn channels_bytes(cs: Seq<ChannelSpec>) -> Seq<u8>
    decreases cs.len(),
{
    if cs.len() == 0 {
        Seq::empty()
    } else {
        channels_bytes(cs.drop_last()) + channel_bytes(cs.last())
    }
}

pub open spec fn channel_views(cs: Seq<ChannelData>) -> Seq<ChannelSpec> {
    cs.map_values(|c: ChannelData| c@)
}

/// The whole stream of an image.
pub open spec fn image_bytes(img: CompressedImage) -> Seq<u8> {
    header_bytes(img.metadata) + channels_bytes(channel_views(img.channel_data@)) + marker(EOI)
}

pub open spec fn zero_params() -> Seq<i32> {
    Seq::new(PARAM_COUNT as nat, |i: int| 0i32)
}

/// The state of a channel before any of its segments is read.
pub open spec fn empty_channel() -> ChannelSpec {
    ChannelSpec { value: zero_params(), width: zero_params(), bits: Seq::empty(), data: Seq::empty() }
}

pub open spec fn read_words(b: Seq<u8>, off: int, n: nat) -> Seq<i32> {
    Seq::new(n, |i: int| read_u32(b, off + 4 * i) as i32)
}

/// The channels that the segments from `off` on describe, `cur` being the
/// channel read so far and `done` the finished ones.
pub open spec fn parse_segments(
    b: Seq<u8>,
    off: int,
    cur: ChannelSpec,
    done: Seq<ChannelSpec>,
) -> Result<Seq<ChannelSpec>, SerializeError>
    decreases b.len() - off,
{
    if off < 0 || off + 2 > b.len() || b[off] != MARK {
        Err(SerializeError::MalformedImageBytes)
    } else if b[off + 1] == PRD {
        if off + 146 > b.len() {
            Err(SerializeError::MalformedImageBytes)
        } else {
            parse_segments(
                b,
                off + 146,
                ChannelSpec {
                    value: read_words(b, off + 2, 18),
                    width: read_words(b, off + 74, 18),
                    bits: cur.bits,
                    data: cur.data,
                },
                done,
            )
        }
    } else if b[off + 1] == EHD {
        if off + 6 > b.len() {
            Err(SerializeError::MalformedImageBytes)
        } else {
            parse_segments(
                b,
                off + 6,
                ChannelSpec {
                    value: cur.value,
                    width: cur.width,
                    bits: cur.bits.push(read_u32(b, off + 2)),
                    data: cur.data,
                },
                done,
            )
        }
    } else if b[off + 1] == DAT {
        if off + 10 > b.len() || off + 10 + read_u64(b, off + 2) > b.len() {
            Err(SerializeError::MalformedImageBytes)
        } else {
            let end = off + 10 + read_u64(b, off + 2);
            parse_segments(
                b,
                end,
                ChannelSpec {
                    value: cur.value,
                    width: cur.width,
                    bits: cur.bits,
                    data: b.subrange(off + 10, end),
                },
                done,
            )
        }
    } else if b[off + 1] == EOC {
        if done.len() >= 3 {
            Err(SerializeError::MalformedImageBytes)
        } else {
            parse_segments(b, off + 2, empty_channel(), done.push(cur))
        }
    } else if b[off + 1] == EOI {
        Ok(done)
    } else {
        Err(SerializeError::MalformedImageBytes)
    }
}

/// What a whole byte stream decodes to.
pub open spec fn decode_spec(b: Seq<u8>) -> Result<(ImageMetadata, Seq<ChannelSpec>), SerializeError> {
    match parse_header_spec(b) {
        Err(e) => Err(e),
        Ok(m) => match parse_segments(b, 16, empty_channel(), Seq::empty()) {
            Err(e) => Err(e),
            Ok(cs) => Ok((m, cs)),
        },
    }
}

fn push_words(out: &mut Vec<u8>, s: &Vec<i32>)
    ensures
        final(out)@ == old(out)@ + words_le(s@),
{
    let ghost start = out@;
    let mut i: usize = 0;
    while i < s.len()
        invariant
            i <= s@.len(),
            out@ == start + words_le(s@.subrange(0, i as int)),
        decreases s@.len() - i,
    {
        let ghost pre = s@.subrange(0, i as int);
        push_u32_le(out, s[i] as u32);
        i = i + 1;
        proof {
            let cur = s@.subrange(0, i as int);
            assert(cur.drop_last() =~= pre);
            assert(out@ =~= start + words_le(cur));
        }
    }
    assert(s@.subrange(0, s@.len() as int) =~= s@);
}

fn push_marker(out: &mut Vec<u8>, kind: u8)
    ensures
        final(out)@ == old(out)@ + marker(kind),
{
    out.push(MARK);
    out.push(kind);
    assert(final(out)@ =~= old(out)@ + marker(kind));
}

fn encode_channel(out: &mut Vec<u8>, c: &ChannelData)
    ensures
        final(out)@ == old(out)@ + channel_bytes(c@),
{
    let ghost start = out@;
    push_marker(out, PRD);
    push_words(out, &c.value_predictors);
    push_words(out, &c.width_predictors);
    let mut i: usize = 0;
    while i < c.max_freq_bits.len()
        invariant
            i <= c.max_freq_bits@.len(),
            out@ == start + marker(PRD) + words_le(c.value_predictors@) + words_le(
                c.width_predictors@,
            ) + ehd_bytes(c.max_freq_bits@.subrange(0, i as int)),
        decreases c.max_freq_bits@.len() - i,
    {
        let ghost pre = c.max_freq_bits@.subrange(0, i as int);
        push_marker(out, EHD);
        push_u32_le(out, c.max_freq_bits[i]);
        i = i + 1;
        proof {
            let cur = c.max_freq_bits@.subrange(0, i as int);
            assert(cur.drop_last() =~= pre);
            assert(out@ =~= start + marker(PRD) + words_le(c.value_predictors@) + words_le(
                c.width_predictors@,
            ) + ehd_bytes(cur));
        }
    }
    assert(c.max_freq_bits@.subrange(0, c.max_freq_bits@.len() as int) =~= c.max_freq_bits@);
    push_marker(out, DAT);
    push_u64_le(out, c.data.len() as u64);
    let ghost before = out@;
    let mut j: usize = 0;
    while j < c.data.len()
        invariant
            j <= c.data@.len(),
            out@ == before + c.data@.subrange(0, j as int),
        decreases c.data@.len() - j,
    {
        out.push(c.data[j]);
        j = j + 1;
        assert(out@ =~= before + c.data@.subrange(0, j as int));
    }
    assert(c.data@.subrange(0, c.data@.len() as int) =~= c.data@);
    push_marker(out, EOC);
    assert(out@ =~= start + channel_bytes(c@));
}

/// Lays out an image as bytes: the header, each channel, then the end mark.
/// Only what reads back is accepted: at most three channels, each with
/// three groups of six parameters of each kind.
pub fn encode(image: &CompressedImage) -> (r: Result<Vec<u8>, SerializeError>)
    requires
        image.channel_data@.len() <= 3,
        forall|i: int|
            0 <= i < image.channel_data@.len() ==> channel_fits(#[trigger] channel_views(image.channel_data@)[i]),
    ensures
        r matches Ok(b) && b@ == image_bytes(*image),
{
    let mut out: Vec<u8> = Vec::new();
    encode_header(&image.metadata, &mut out);
    let ghost start = out@;
    let mut i: usize = 0;
    while i < image.channel_data.len()
        invariant
            i <= image.channel_data@.len(),
            out@ == start + channels_bytes(channel_views(image.channel_data@.subrange(0, i as int))),
        decreases image.channel_data@.len() - i,
    {
        let ghost pre = image.channel_data@.subrange(0, i as int);
        encode_channel(&mut out, &image.channel_data[i]);
        i = i + 1;
        proof {
            let cur = image.channel_data@.subrange(0, i as int);
            assert(channel_views(cur).drop_last() =~= channel_views(pre));
            assert(out@ =~= start + channels_bytes(channel_views(cur)));
        }
    }
    assert(image.channel_data@.subrange(0, image.channel_data@.len() as int)
        =~= image.channel_data@);
    push_marker(&mut out, EOI);
    assert(out@ =~= image_bytes(*image));
    Ok(out)
}

fn read_params(b: &Vec<u8>, off: usize) -> (r: Vec<i32>)
    requires
        off + 72 <= b@.len(),
    ensures
        r@ == read_words(b@, off as int, 18),
{
    let mut r: Vec<i32> = Vec::new();
    let mut i: usize = 0;
    let n = b.len();
    while i < PARAM_COUNT
        invariant
            i <= 18,
            n == b@.len(),
            off + 72 <= b@.len(),
            r@ == read_words(b@, off as int, i as nat),
        decreases 18 - i,
    {
        let w = get_u32(b, off + 4 * i);
        r.push(#[verifier::truncate] (w as i32));
        i = i + 1;
        assert(r@ =~= read_words(b@, off as int, i as nat));
    }
    r
}

fn zero_channel() -> (r: ChannelData)
    ensures
        r@ == empty_channel(),
{
    let r = ChannelData {
        value_predictors: vec![0i32; PARAM_COUNT],
        width_predictors: vec![0i32; PARAM_COUNT],
        max_freq_bits: Vec::new(),
        data: Vec::new(),
    };
    assert(r.value_predictors@ =~= zero_params());
    assert(r.width_predictors@ =~= zero_params());
    r
}

/// Reads the segments that follow the header, from `offset` on.
pub fn deserialize_channel_data(bytes: &Vec<u8>, offset: usize) -> (r: Result<
    Vec<ChannelData>,
    SerializeError,
>)
    ensures
        match r {
            Ok(cs) => parse_segments(bytes@, offset as int, empty_channel(), Seq::empty()) == Ok::<
                Seq<ChannelSpec>,
                SerializeError,
            >(channel_views(cs@)),
            Err(e) => parse_segments(bytes@, offset as int, empty_channel(), Seq::empty()) == Err::<
                Seq<ChannelSpec>,
                SerializeError,
            >(e),
        },
{
    let ghost target = parse_segments(bytes@, offset as int, empty_channel(), Seq::empty());
    let mut off = offset;
    let mut cur = zero_channel();
    let mut done: Vec<ChannelData> = Vec::new();
    assert(channel_views(done@) =~= Seq::empty());
    let n = bytes.len();
    loop
        invariant
            n == bytes@.len(),
            target == parse_segments(bytes@, offset as int, empty_channel(), Seq::empty()),
            target == parse_segments(bytes@, off as int, cur@, channel_views(done@)),
        decreases n - off,
    {
        if off > n || n - off < 2 || bytes[off] != MARK {
            return Err(SerializeError::MalformedImageBytes);
        }
        let kind = bytes[off + 1];
        if kind == PRD {
            if n - off < 146 {
                return Err(SerializeError::MalformedImageBytes);
            }
            cur.value_predictors = read_params(bytes, off + 2);
            cur.width_predictors = read_params(bytes, off + 74);
            off = off + 146;
        } else if kind == EHD {
            if n - off < 6 {
                return Err(SerializeError::MalformedImageBytes);
            }
            let bits = get_u32(bytes, off + 2);
            cur.max_freq_bits.push(bits);
            off = off + 6;
        } else if kind == DAT {
            if n - off < 10 {
                return Err(SerializeError::MalformedImageBytes);
            }
            let len = get_u64(bytes, off + 2);
            if len > (n - off - 10) as u64 {
                return Err(SerializeError::MalformedImageBytes);
            }
            let start = off + 10;
            let end = start + len as usize;
            let mut data: Vec<u8> = Vec::new();
            let mut j: usize = start;
            while j < end
                invariant
                    start <= j <= end <= n,
                    n == bytes@.len(),
                    data@ == bytes@.subrange(start as int, j as int),
                decreases end - j,
            {
                data.push(bytes[j]);
                j = j + 1;
                assert(data@ =~= bytes@.subrange(start as int, j as int));
            }
            cur.data = data;
            off = end;
        } else if kind == EOC {
            if done.len() >= 3 {
                return Err(SerializeError::MalformedImageBytes);
            }
            let ghost before = done@;
            let finished = cur;
            cur = zero_channel();
            done.push(finished);
            assert(channel_views(done@) =~= channel_views(before).push(finished@));
            off = off + 2;
        } else if kind == EOI {
            return Ok(done);
        } else {
            return Err(SerializeError::MalformedImageBytes);
        }
    }
}

/// Reads a whole byte stream back into an image.
pub fn decode(bytes: &Vec<u8>) -> (r: Result<CompressedImage, SerializeError>)
    ensures
        match r {
            Ok(img) => decode_spec(bytes@) == Ok::<
                (ImageMetadata, Seq<ChannelSpec>),
                SerializeError,
            >((img.metadata, channel_views(img.channel_data@))),
            Err(e) => decode_spec(bytes@) == Err::<(ImageMetadata, Seq<ChannelSpec>), SerializeError>(
                e,
            ),
        },
{
    let metadata = match parse_header(bytes) {
        Ok(m) => m,
        Err(e) => {
            return Err(e);
        },
    };
    match deserialize_channel_data(bytes, 16) {
        Ok(channel_data) => Ok(CompressedImage { metadata, channel_data }),
        Err(e) => Err(e),
    }
}


proof fn lemma_i32_word(v: i32)
    ensures
        (v as u32) as i32 == v,
{
    assert((v as u32) as i32 == v) by (bit_vector);
}

/// Reading back the words that `words_le` lays out gives the parameters.
proof fn lemma_read_words(pre: Seq<u8>, s: Seq<i32>, post: Seq<u8>)
    ensures
        words_le(s).len() == 4 * s.len(),
        read_words(pre + words_le(s) + post, pre.len() as int, s.len()) == s,
    decreases s.len(),
{
    if s.len() > 0 {
        let dl = s.drop_last();
        let w = u32_le(s.last() as u32);
        lemma_read_words(pre, dl, w + post);
        assert(pre + words_le(s) + post =~= pre + words_le(dl) + (w + post));
        lemma_read_u32(pre + words_le(dl), s.last() as u32, post);
        assert(pre + words_le(s) + post =~= pre + words_le(dl) + w + post);
        lemma_i32_word(s.last());
        let b = pre + words_le(s) + post;
        assert forall|i: int| 0 <= i < s.len() implies read_words(b, pre.len() as int, s.len())[i] == s[i] by {
            if i < dl.len() {
                assert(read_words(b, pre.len() as int, dl.len())[i] == dl[i]);
            }
        }
        assert(read_words(b, pre.len() as int, s.len()) =~= s);
    }
}

proof fn lemma_read_u64(pre: Seq<u8>, v: u64, post: Seq<u8>)
    ensures
        u64_le(v).len() == 8,
        read_u64(pre + u64_le(v) + post, pre.len() as int) == v,
{
    let lo = (v & 0xffff_ffff) as u32;
    let hi = (v >> 32u64) as u32;
    lemma_read_u32(pre, lo, u32_le(hi) + post);
    assert(pre + u64_le(v) + post =~= pre + u32_le(lo) + (u32_le(hi) + post));
    lemma_read_u32(pre + u32_le(lo), hi, post);
    assert(pre + u64_le(v) + post =~= pre + u32_le(lo) + u32_le(hi) + post);
    assert(((lo as u64) | ((hi as u64) << 32u64)) == v) by (bit_vector)
        requires
            lo == (v & 0xffff_ffff) as u32,
            hi == (v >> 32u64) as u32,
    ;
}

/// The entropy headers of a channel add their exponents in order.
proof fn lemma_parse_ehd(
    pre: Seq<u8>,
    bits: Seq<u32>,
    rest: Seq<u8>,
    cur: ChannelSpec,
    done: Seq<ChannelSpec>,
)
    ensures
        ehd_bytes(bits).len() == 6 * bits.len(),
        parse_segments(pre + ehd_bytes(bits) + rest, pre.len() as int, cur, done) == parse_segments(
            pre + ehd_bytes(bits) + rest,
            (pre.len() + 6 * bits.len()) as int,
            ChannelSpec { value: cur.value, width: cur.width, bits: cur.bits + bits, data: cur.data },
            done,
        ),
    decreases bits.len(),
{
    if bits.len() == 0 {
        assert(cur.bits + bits =~= cur.bits);
    } else {
        let dl = bits.drop_last();
        let seg = marker(EHD) + u32_le(bits.last());
        let b = pre + ehd_bytes(bits) + rest;
        assert(b =~= pre + ehd_bytes(dl) + (seg + rest));
        lemma_parse_ehd(pre, dl, seg + rest, cur, done);
        let off = (pre.len() + 6 * dl.len()) as int;
        let mid = ChannelSpec { value: cur.value, width: cur.width, bits: cur.bits + dl, data: cur.data };
        assert(b =~= (pre + ehd_bytes(dl) + marker(EHD)) + u32_le(bits.last()) + rest);
        lemma_read_u32(pre + ehd_bytes(dl) + marker(EHD), bits.last(), rest);
        assert(b[off] == MARK && b[off + 1] == EHD);
        assert(mid.bits.push(bits.last()) =~= cur.bits + bits);
    }
}

pub open spec fn channel_fits(c: ChannelSpec) -> bool {
    c.value.len() == PARAM_COUNT && c.width.len() == PARAM_COUNT && c.data.len() < 0x1_0000_0000_0000_0000
}

proof fn lemma_step_prd(b: Seq<u8>, off: int, cur: ChannelSpec, done: Seq<ChannelSpec>)
    requires
        0 <= off,
        off + 146 <= b.len(),
        b[off] == MARK,
        b[off + 1] == PRD,
    ensures
        parse_segments(b, off, cur, done) == parse_segments(
            b,
            off + 146,
            ChannelSpec {
                value: read_words(b, off + 2, 18),
                width: read_words(b, off + 74, 18),
                bits: cur.bits,
                data: cur.data,
            },
            done,
        ),
{
}

proof fn lemma_step_dat(b: Seq<u8>, off: int, cur: ChannelSpec, done: Seq<ChannelSpec>)
    requires
        0 <= off,
        off + 10 + read_u64(b, off + 2) <= b.len(),
        b[off] == MARK,
        b[off + 1] == DAT,
    ensures
        parse_segments(b, off, cur, done) == parse_segments(
            b,
            off + 10 + read_u64(b, off + 2),
            ChannelSpec {
                value: cur.value,
                width: cur.width,
                bits: cur.bits,
                data: b.subrange(off + 10, off + 10 + read_u64(b, off + 2)),
            },
            done,
        ),
{
}

proof fn lemma_step_eoc(b: Seq<u8>, off: int, cur: ChannelSpec, done: Seq<ChannelSpec>)
    requires
        0 <= off,
        off + 2 <= b.len(),
        b[off] == MARK,
        b[off + 1] == EOC,
        done.len() < 3,
    ensures
        parse_segments(b, off, cur, done) == parse_segments(b, off + 2, empty_channel(), done.push(cur)),
{
}

proof fn lemma_channel_steps(b: Seq<u8>, n: int, off: int, end: int, c: ChannelSpec, done: Seq<ChannelSpec>)
    requires
        0 <= n,
        n + 146 <= off,
        off + 10 + c.data.len() == end,
        end + 2 <= b.len(),
        done.len() < 3,
        b[n] == MARK,
        b[n + 1] == PRD,
        read_words(b, n + 2, 18) == c.value,
        read_words(b, n + 74, 18) == c.width,
        parse_segments(
            b,
            n + 146,
            ChannelSpec { value: c.value, width: c.width, bits: Seq::empty(), data: Seq::empty() },
            done,
        ) == parse_segments(
            b,
            off,
            ChannelSpec { value: c.value, width: c.width, bits: c.bits, data: Seq::empty() },
            done,
        ),
        b[off] == MARK,
        b[off + 1] == DAT,
        read_u64(b, off + 2) == c.data.len(),
        b.subrange(off + 10, end) == c.data,
        b[end] == MARK,
        b[end + 1] == EOC,
    ensures
        parse_segments(b, n, empty_channel(), done) == parse_segments(b, end + 2, empty_channel(), done.push(c)),
{
    lemma_step_prd(b, n, empty_channel(), done);
    lemma_step_dat(b, off, ChannelSpec { value: c.value, width: c.width, bits: c.bits, data: Seq::empty() }, done);
    lemma_step_eoc(b, end, c, done);
}

proof fn lemma_prd_part(pre: Seq<u8>, c: ChannelSpec, rest: Seq<u8>)
    requires
        channel_fits(c),
    ensures
        prd_bytes(c).len() == 146,
        ({
            let b = pre + prd_bytes(c) + rest;
            let n = pre.len() as int;
            &&& b[n] == MARK
            &&& b[n + 1] == PRD
            &&& read_words(b, n + 2, 18) == c.value
            &&& read_words(b, n + 74, 18) == c.width
        }),
{
    let b = pre + prd_bytes(c) + rest;
    let n = pre.len() as int;
    let p1 = pre + marker(PRD);
    let vw = words_le(c.value);
    let ww = words_le(c.width);
    lemma_read_words(p1, c.value, ww + rest);
    assert(b =~= p1 + vw + (ww + rest));
    lemma_read_words(p1 + vw, c.width, rest);
    assert(b =~= p1 + vw + ww + rest);
    assert(b[n] == p1[n]);
    assert(b[n + 1] == p1[n + 1]);
}

proof fn lemma_dat_part(pre: Seq<u8>, c: ChannelSpec, rest: Seq<u8>)
    requires
        channel_fits(c),
    ensures
        dat_bytes(c).len() == 12 + c.data.len(),
        ({
            let b = pre + dat_bytes(c) + rest;
            let off = pre.len() as int;
            let end = off + 10 + c.data.len();
            &&& b[off] == MARK
            &&& b[off + 1] == DAT
            &&& read_u64(b, off + 2) == c.data.len()
            &&& b.subrange(off + 10, end) == c.data
            &&& b[end] == MARK
            &&& b[end + 1] == EOC
        }),
{
    let b = pre + dat_bytes(c) + rest;
    let off = pre.len() as int;
    let p3 = pre + marker(DAT);
    let dl = u64_le(c.data.len() as u64);
    let tail = marker(EOC) + rest;
    lemma_read_u64(p3, c.data.len() as u64, c.data + tail);
    assert(b =~= p3 + dl + (c.data + tail));
    let end = off + 10 + c.data.len();
    assert(b[off] == p3[off]);
    assert(b[off + 1] == p3[off + 1]);
    assert(b.subrange(off + 10, end) =~= c.data);
    assert(b[end] == tail[0]);
    assert(b[end + 1] == tail[1]);
}

proof fn lemma_channel_shape(pre: Seq<u8>, c: ChannelSpec, rest: Seq<u8>)
    ensures
        pre + channel_bytes(c) + rest == pre + prd_bytes(c) + (ehd_bytes(c.bits) + dat_bytes(c) + rest),
        pre + channel_bytes(c) + rest == (pre + prd_bytes(c)) + ehd_bytes(c.bits) + (dat_bytes(c) + rest),
        pre + channel_bytes(c) + rest == (pre + prd_bytes(c) + ehd_bytes(c.bits)) + dat_bytes(c) + rest,
{
    let pr = prd_bytes(c);
    let eh = ehd_bytes(c.bits);
    let da = dat_bytes(c);
    assert(pre + channel_bytes(c) + rest =~= pre + pr + (eh + da + rest));
    assert(pre + channel_bytes(c) + rest =~= (pre + pr) + eh + (da + rest));
    assert(pre + channel_bytes(c) + rest =~= (pre + pr + eh) + da + rest);
}

proof fn lemma_channel_facts(pre: Seq<u8>, c: ChannelSpec, rest: Seq<u8>)
    requires
        channel_fits(c),
    ensures
        ({
            let b = pre + channel_bytes(c) + rest;
            let n = pre.len() as int;
            let pr = prd_bytes(c);
            let eh = ehd_bytes(c.bits);
            let da = dat_bytes(c);
            let off = n + 146 + 6 * c.bits.len();
            let end = off + 10 + c.data.len();
            &&& b == (pre + pr) + eh + (da + rest)
            &&& (pre + pr).len() == n + 146
            &&& eh.len() == 6 * c.bits.len()
            &&& channel_bytes(c).len() == 146 + 6 * c.bits.len() + 12 + c.data.len()
            &&& end + 2 <= b.len()
            &&& b[n] == MARK
            &&& b[n + 1] == PRD
            &&& read_words(b, n + 2, 18) == c.value
            &&& read_words(b, n + 74, 18) == c.width
            &&& b[off] == MARK
            &&& b[off + 1] == DAT
            &&& read_u64(b, off + 2) == c.data.len()
            &&& b.subrange(off + 10, end) == c.data
            &&& b[end] == MARK
            &&& b[end + 1] == EOC
        }),
{
    let pr = prd_bytes(c);
    let eh = ehd_bytes(c.bits);
    let da = dat_bytes(c);
    lemma_channel_shape(pre, c, rest);
    lemma_prd_part(pre, c, eh + da + rest);
    lemma_parse_ehd(Seq::empty(), c.bits, Seq::empty(), empty_channel(), Seq::empty());
    lemma_dat_part(pre + pr + eh, c, rest);
}

/// One channel's segments read back as that channel.
proof fn lemma_parse_channel(pre: Seq<u8>, c: ChannelSpec, rest: Seq<u8>, done: Seq<ChannelSpec>)
    requires
        channel_fits(c),
        done.len() < 3,
    ensures
        parse_segments(pre + channel_bytes(c) + rest, pre.len() as int, empty_channel(), done) == parse_segments(
            pre + channel_bytes(c) + rest,
            (pre.len() + channel_bytes(c).len()) as int,
            empty_channel(),
            done.push(c),
        ),
{
    lemma_channel_facts(pre, c, rest);
    let b = pre + channel_bytes(c) + rest;
    let n = pre.len() as int;
    let pr = prd_bytes(c);
    let c1 = ChannelSpec { value: c.value, width: c.width, bits: Seq::empty(), data: Seq::empty() };
    lemma_parse_ehd(pre + pr, c.bits, dat_bytes(c) + rest, c1, done);
    assert(Seq::<u32>::empty() + c.bits =~= c.bits);
    let off = (n + 146 + 6 * c.bits.len()) as int;
    let end = (off + 10 + c.data.len()) as int;
    lemma_channel_steps(b, n, off, end, c, done);
}

/// All channels read back in order.
#[verifier::rlimit(60)]
proof fn lemma_parse_channels(pre: Seq<u8>, cs: Seq<ChannelSpec>, rest: Seq<u8>, done: Seq<ChannelSpec>)
    requires
        done.len() + cs.len() <= 3,
        forall|i: int| 0 <= i < cs.len() ==> channel_fits(#[trigger] cs[i]),
    ensures
        parse_segments(pre + channels_bytes(cs) + rest, pre.len() as int, empty_channel(), done) == parse_segments(
            pre + channels_bytes(cs) + rest,
            (pre.len() + channels_bytes(cs).len()) as int,
            empty_channel(),
            done + cs,
        ),
    decreases cs.len(),
{
    if cs.len() == 0 {
        assert(done + cs =~= done);
    } else {
        let dl = cs.drop_last();
        let b = pre + channels_bytes(cs) + rest;
        assert(b =~= pre + channels_bytes(dl) + (channel_bytes(cs.last()) + rest));
        lemma_parse_channels(pre, dl, channel_bytes(cs.last()) + rest, done);
        assert(b =~= (pre + channels_bytes(dl)) + channel_bytes(cs.last()) + rest);
        assert(channel_fits(cs[cs.len() - 1]));
        lemma_parse_channel(pre + channels_bytes(dl), cs.last(), rest, done + dl);
        assert((done + dl).push(cs.last()) =~= done + cs);
    }
}

/// A stream laid out from an image reads back as that image, provided each
/// channel holds three groups of six parameters of each kind and there are
/// at most three channels.
pub proof fn lemma_stream_round_trip(img: CompressedImage)
    requires
        channel_views(img.channel_data@).len() <= 3,
        forall|i: int|
            0 <= i < img.channel_data@.len() ==> channel_fits(#[trigger] channel_views(img.channel_data@)[i]),
    ensures
        decode_spec(image_bytes(img)) == Ok::<(ImageMetadata, Seq<ChannelSpec>), SerializeError>(
            (img.metadata, channel_views(img.channel_data@)),
        ),
{
    let cs = channel_views(img.channel_data@);
    let h = header_bytes(img.metadata);
    let b = image_bytes(img);
    lemma_header_round_trip(img.metadata, channels_bytes(cs) + marker(EOI));
    assert(b =~= h + (channels_bytes(cs) + marker(EOI)));
    lemma_parse_channels(h, cs, marker(EOI), Seq::empty());
    assert(Seq::<ChannelSpec>::empty() + cs =~= cs);
    let off = (h.len() + channels_bytes(cs).len()) as int;
    assert(b[off] == MARK && b[off + 1] == EOI);
}

} // verus!

//! The encoder and decoder drivers: the stages from raster to coded
//! symbols, and from a parsed stream to the raster.
use crate::cell::{level_of, p2, BASE_FRAC_DEPTH};
use crate::codec::{
    apply, coding_order, dec_values, decoded_fit, encode_channel, enc_symbol, order_spec, orders_ok, params_ok,
    residuals_fit, truths, zeroed,
    ChannelDecoder, Slot,
};
use crate::prediction::view_state;
use crate::entropy::{clamp_bits, is_finalized, no_observations, seen_set, table_ok, AnsContext, ALPHABET_SIZE};
use crate::images::{channels_of, ColorSpace, FractalVariant, ImageMetadata, RasterImage, MAX_SIDE};
use crate::prediction::CONTEXT_AMOUNT;
use crate::serialize::{
    channel_fits, channel_views, decode_spec, image_bytes, lemma_stream_round_trip, ChannelData, ChannelSpec,
    CompressedImage, PARAM_COUNT,
};
use crate::wavelet::{byte_coefs, centers_of, coefficients_of, tile_centers, zero_tile, WaveletImage};
use vstd::prelude::*;

verus! {

/// How much detail the encoder keeps; only lossless coding exists so far.
#[derive(Clone, Copy, Debug, PartialEq, Eq, Structural)]
pub enum EncoderQuality {
    Low,
    Medium,
    High,
    Lossless,
}

/// The quantization divisor of each tree level: all 1, so quantization is
/// the identity for now.
pub fn get_quantization_matrix() -> (r: Vec<i32>)
    ensures
        r@.len() == 32,
        forall|i: int| 0 <= i < 32 ==> #[trigger] r@[i] == 1,
{
    vec![1i32; 32]
}

/// The quantization stage: divides by `get_quantization_matrix`, which is
/// all 1, so the image passes through unchanged.
pub fn quantization_encode(image: WaveletImage) -> (r: WaveletImage)
    ensures
        r == image,
{
    image
}

/// The inverse of `quantization_encode`.
pub fn quantization_decode(image: WaveletImage) -> (r: WaveletImage)
    ensures
        r == image,
{
    image
}

/// `floor(log2 x)`, and 0 for 0.
pub fn floor_log2(x: u32) -> (r: u32)
    ensures
        r == level_of(x as int),
        r < 32,
{
    proof {
        reveal_with_fuel(p2, 33);
        if x >= 1 {
            crate::cell::lemma_level_below(32, x as int);
        }
    }
    let mut v: u32 = x;
    let mut r: u32 = 0;
    while v > 1
        invariant
            level_of(x as int) == r + level_of(v as int),
            level_of(x as int) < 32,
        decreases v,
    {
        assert(level_of(v as int) == 1 + level_of(v as int / 2));
        v = v / 2;
        r = r + 1;
    }
    r
}

/// The encoder options: the predictor parameters of each channel, as
/// fixed-point numbers with 16 fractional bits, three groups of six.
pub struct EncoderOpts {
    pub quality: EncoderQuality,
    pub emit_coefficients: bool,
    pub value_prediction_params: Vec<Vec<i32>>,
    pub width_prediction_params: Vec<Vec<i32>>,
    pub verbose: bool,
}

/// An even average of the six taps (1/6 each), and a constant width.
pub const DEFAULT_VALUE_PARAM: i32 = 10923;

impl EncoderOpts {
    pub fn default_opts() -> (r: EncoderOpts)
        ensures
            r.quality == EncoderQuality::Lossless,
            r.value_prediction_params@.len() == 3,
            r.width_prediction_params@.len() == 3,
            forall|c: int| 0 <= c < 3 ==> (#[trigger] r.value_prediction_params@[c])@.len() == PARAM_COUNT && forall|i: int|
                0 <= i < PARAM_COUNT ==> r.value_prediction_params@[c]@[i] == DEFAULT_VALUE_PARAM,
            forall|c: int| 0 <= c < 3 ==> (#[trigger] r.width_prediction_params@[c])@.len() == PARAM_COUNT && forall|i: int|
                0 <= i < PARAM_COUNT ==> r.width_prediction_params@[c]@[i] == 0,
    {
        EncoderOpts {
            quality: EncoderQuality::Lossless,
            emit_coefficients: false,
            value_prediction_params: vec![
                vec![DEFAULT_VALUE_PARAM; PARAM_COUNT],
                vec![DEFAULT_VALUE_PARAM; PARAM_COUNT],
                vec![DEFAULT_VALUE_PARAM; PARAM_COUNT],
            ],
            width_prediction_params: vec![vec![0i32; PARAM_COUNT], vec![0i32; PARAM_COUNT], vec![0i32; PARAM_COUNT]],
            verbose: false,
        }
    }

    pub open spec fn params_fit(&self, channels: nat) -> bool {
        &&& self.value_prediction_params@.len() >= channels
        &&& self.width_prediction_params@.len() >= channels
        &&& forall|c: int|
            0 <= c < channels ==> params_ok(
                (#[trigger] self.value_prediction_params@[c])@,
                self.width_prediction_params@[c]@,
            )
    }
}

/// The number of symbols of `syms` coded in bucket `b`.
pub open spec fn bucket_count(syms: Seq<(usize, u32)>, b: int) -> nat
    decreases syms.len(),
{
    if syms.len() == 0 {
        0
    } else {
        bucket_count(syms.drop_last(), b) + if syms.last().0 == b {
            1nat
        } else {
            0nat
        }
    }
}

/// One coded channel: its scan order, the (bucket, symbol) pairs and the
/// final table of each bucket.
pub struct EncodedChannel {
    pub order: Vec<Slot>,
    pub symbols: Vec<(usize, u32)>,
    pub contexts: Vec<AnsContext>,
    pub value_params: Vec<i32>,
    pub width_params: Vec<i32>,
}

pub open spec fn min_count(n: nat) -> u32 {
    if n > u32::MAX {
        u32::MAX
    } else {
        n as u32
    }
}

/// Which symbols the first `k` entries of `syms` code in bucket `b`.
pub open spec fn observed(syms: Seq<(usize, u32)>, b: int, k: int) -> Seq<bool> {
    Seq::new(
        ALPHABET_SIZE as nat,
        |s: int| exists|t: int| 0 <= t < k && #[trigger] syms[t] == (b as usize, s as u32),
    )
}

/// Every bucket holds its final table, built with the exponent
/// `floor(log2 count)` of the symbols it codes and marking the symbols it
/// codes as observed.
pub open spec fn contexts_ok(contexts: Seq<AnsContext>, syms: Seq<(usize, u32)>) -> bool {
    &&& contexts.len() == CONTEXT_AMOUNT
    &&& forall|b: int|
        0 <= b < CONTEXT_AMOUNT ==> is_finalized(
            #[trigger] contexts[b],
            b,
            clamp_bits(level_of(min_count(bucket_count(syms, b)) as int) as u32),
            observed(syms, b, syms.len() as int),
        ) && table_ok(contexts[b].freqs@, contexts[b].cdf@, contexts[b].max_freq_bits as nat)
}

/// Builds the table of every bucket from the symbols coded in it.
pub fn build_contexts(symbols: &Vec<(usize, u32)>) -> (r: Vec<AnsContext>)
    requires
        forall|k: int| 0 <= k < symbols@.len() ==> (#[trigger] symbols@[k]).0 < CONTEXT_AMOUNT && symbols@[k].1 < ALPHABET_SIZE,
    ensures
        contexts_ok(r@, symbols@),
{
    let mut r: Vec<AnsContext> = Vec::new();
    let mut b: usize = 0;
    while b < CONTEXT_AMOUNT
        invariant
            b <= CONTEXT_AMOUNT,
            r@.len() == b,
            forall|k: int| 0 <= k < symbols@.len() ==> (#[trigger] symbols@[k]).0 < CONTEXT_AMOUNT && symbols@[k].1 < ALPHABET_SIZE,
            forall|c: int|
                0 <= c < b ==> is_finalized(
                    #[trigger] r@[c],
                    c,
                    clamp_bits(level_of(min_count(bucket_count(symbols@, c)) as int) as u32),
                    observed(symbols@, c, symbols@.len() as int),
                ) && table_ok(r@[c].freqs@, r@[c].cdf@, r@[c].max_freq_bits as nat),
        decreases CONTEXT_AMOUNT - b,
    {
        let mut ctx = AnsContext::new();
        let mut count: u32 = 0;
        let mut k: usize = 0;
        while k < symbols.len()
            invariant
                k <= symbols@.len(),
                ctx.freqs@.len() == ALPHABET_SIZE,
                ctx.off_distribution_values@.len() == 0,
                forall|k: int| 0 <= k < symbols@.len() ==> (#[trigger] symbols@[k]).0 < CONTEXT_AMOUNT && symbols@[k].1 < ALPHABET_SIZE,
                count == min_count(bucket_count(symbols@.subrange(0, k as int), b as int)),
                b < CONTEXT_AMOUNT,
                forall|s: int| 0 <= s < ALPHABET_SIZE ==> (#[trigger] ctx.freqs@[s] > 0) == observed(symbols@, b as int, k as int)[s],
            decreases symbols@.len() - k,
        {
            let (bucket, symbol) = symbols[k];
            proof {
                assert(symbols@.subrange(0, k + 1).drop_last() =~= symbols@.subrange(0, k as int));
            }
            let ghost before = ctx.freqs@;
            if bucket == b {
                if ctx.freqs[symbol as usize] < u32::MAX {
                    ctx.bump_freq(symbol);
                }
                if count < u32::MAX {
                    count = count + 1;
                }
            }
            proof {
                assert forall|s: int| 0 <= s < ALPHABET_SIZE implies (#[trigger] ctx.freqs@[s] > 0) == observed(symbols@, b as int, k + 1)[s] by {
                    if observed(symbols@, b as int, k + 1)[s] && !observed(symbols@, b as int, k as int)[s] {
                        let t = choose|t: int| 0 <= t < k + 1 && #[trigger] symbols@[t] == (b, s as u32);
                        if t < k {
                            assert(observed(symbols@, b as int, k as int)[s]);
                        }
                        assert(symbols@[k as int] == (b, s as u32));
                    }
                    if observed(symbols@, b as int, k as int)[s] {
                        let t = choose|t: int| 0 <= t < k && #[trigger] symbols@[t] == (b, s as u32);
                        assert(observed(symbols@, b as int, k + 1)[s]);
                    }
                    if s == symbol as int && bucket == b {
                        assert(symbols@[k as int] == (b, s as u32));
                        assert(observed(symbols@, b as int, k + 1)[s]);
                    }
                    if !(s == symbol as int && bucket == b) && observed(symbols@, b as int, k + 1)[s] {
                        let t = choose|t: int| 0 <= t < k + 1 && #[trigger] symbols@[t] == (b, s as u32);
                        if t == k {
                            assert(false);
                        }
                        assert(observed(symbols@, b as int, k as int)[s]);
                    }
                }
            }
            k = k + 1;
        }
        assert(symbols@.subrange(0, symbols@.len() as int) =~= symbols@);
        ctx.max_freq_bits = floor_log2(count);
        proof {
            assert(seen_set(ctx) =~= observed(symbols@, b as int, symbols@.len() as int)) by {
                assert forall|s: int| 0 <= s < ALPHABET_SIZE implies seen_set(ctx)[s] == observed(symbols@, b as int, symbols@.len() as int)[s] by {
                    assert(!ctx.off_distribution_values@.contains(s as u16));
                }
            }
        }
        ctx.finalize_context(b);
        r.push(ctx);
        b = b + 1;
    }
    r
}

/// Codes channel `ch` of a transformed image; `None` when a residual falls
/// outside the alphabet's range `-512..=511`.
pub fn encode_channel_data(img: &WaveletImage, ch: usize, vp: Vec<i32>, wp: Vec<i32>) -> (r: Option<EncodedChannel>)
    requires
        img.wf(),
        img.byte_bounded(),
        ch < channels_of(img.metadata.colorspace),
        params_ok(vp@, wp@),
    ensures
        r is Some <==> residuals_fit(
            *img,
            ch as int,
            order_spec(*img, ch as int),
            vp@,
            wp@,
            order_spec(*img, ch as int).len() as int,
        ),
        r matches Some(c) ==> {
            &&& channel_coded(*img, ch as int, c)
            &&& c.value_params == vp
            &&& c.width_params == wp
        },
{
    let order = coding_order(img, ch);
    proof {
        assert forall|k: int| 0 <= k < order@.len() implies -255 <= #[trigger] truths(*img, ch as int, order@)[k] <= 255 by {
            let s = order@[k];
            assert(crate::codec::slot_ok(*img, s));
            assert(crate::wavelet::cell_ok(img.fractal_lattice@[s.1 as int], channels_of(img.metadata.colorspace)));
            assert(byte_coefs(img.fractal_lattice@[s.1 as int].coefficients@[ch as int]@));
            crate::cell::lemma_p2_grows(1, BASE_FRAC_DEPTH as nat);
            crate::cell::lemma_p2_grows((s.0 + 1) as nat, BASE_FRAC_DEPTH as nat);
        }
    }
    match encode_channel(img, ch, &order, &vp, &wp) {
        Some(symbols) => {
            let contexts = build_contexts(&symbols);
            Some(EncodedChannel { order, symbols, contexts, value_params: vp, width_params: wp })
        },
        None => None,
    }
}

/// Encodes rasters with fixed options.
pub struct FRIEncoder {
    pub opts: EncoderOpts,
}

/// An image coded down to symbols: the transformed image and, per channel,
/// the symbols and tables the rANS coder needs.
pub struct EncodedImage {
    pub metadata: ImageMetadata,
    pub image: WaveletImage,
    pub channels: Vec<EncodedChannel>,
}

pub open spec fn encode_accepts(opts: EncoderOpts, data: Seq<u8>, m: ImageMetadata) -> bool {
    m.sized() && data.len() == m.sample_count() && opts.params_fit(channels_of(m.colorspace))
}

pub open spec fn channel_coded(img: WaveletImage, ch: int, c: EncodedChannel) -> bool {
    &&& orders_ok(img, c.order@)
    &&& c.order@ == order_spec(img, ch)
    &&& residuals_fit(img, ch, c.order@, c.value_params@, c.width_params@, c.order@.len() as int)
    &&& c.symbols@.len() == c.order@.len()
    &&& params_ok(c.value_params@, c.width_params@)
    &&& forall|k: int|
        0 <= k < c.symbols@.len() ==> (#[trigger] c.symbols@[k]).0 == enc_symbol(img, ch, c.order@, c.value_params@, c.width_params@, k).0
            && c.symbols@[k].1 as int == enc_symbol(img, ch, c.order@, c.value_params@, c.width_params@, k).1
    &&& contexts_ok(c.contexts@, c.symbols@)
}

impl FRIEncoder {
    pub fn new(opts: EncoderOpts) -> (r: FRIEncoder)
        ensures
            r.opts == opts,
    {
        FRIEncoder { opts }
    }

    /// Runs the stages raw image, channel transform (the identity hook),
    /// wavelet transform, quantization (the identity) and prediction with
    /// context modelling, down to the symbols of each channel.
    pub fn encode(self, data: Vec<u8>, height: u32, width: u32, colorspace: ColorSpace) -> (r: Result<EncodedImage, String>)
        ensures
            r is Ok ==> encode_accepts(
                self.opts,
                data@,
                ImageMetadata { height, width, colorspace, variant: FractalVariant::TameTwindragon },
            ),
            r matches Err(msg) ==> !encode_accepts(
                self.opts,
                data@,
                ImageMetadata { height, width, colorspace, variant: FractalVariant::TameTwindragon },
            ) || msg@ == "a residual falls outside the symbol alphabet"@,
            r matches Ok(e) ==> {
                &&& e.metadata == ImageMetadata { height, width, colorspace, variant: FractalVariant::TameTwindragon }
                &&& e.image.wf()
                &&& e.image.metadata == e.metadata
                &&& centers_of(e.image.fractal_lattice@) == tile_centers(e.metadata)
                &&& forall|j: int, ch: int|
                    0 <= j < e.image.fractal_lattice@.len() && 0 <= ch < channels_of(colorspace)
                        ==> #[trigger] coefficients_of(e.image.fractal_lattice@[j], RasterImage { metadata: e.metadata, data }, ch)
                &&& e.channels@.len() == channels_of(colorspace)
                &&& forall|ch: int|
                    0 <= ch < channels_of(colorspace) ==> (#[trigger] e.channels@[ch]).value_params@
                        == self.opts.value_prediction_params@[ch]@ && e.channels@[ch].width_params@
                        == self.opts.width_prediction_params@[ch]@
                &&& forall|ch: int| 0 <= ch < channels_of(colorspace) ==> channel_coded(e.image, ch, #[trigger] e.channels@[ch])
            },
    {
        let metadata = ImageMetadata { height, width, colorspace, variant: FractalVariant::TameTwindragon };
        if width > MAX_SIDE || height > MAX_SIDE {
            return Err(String::from_str("image dimensions exceed the supported size"));
        }
        let channels = colorspace.num_channels();
        if data.len() != metadata.samples() {
            return Err(String::from_str("raster length does not match its dimensions"));
        }
        if self.opts.value_prediction_params.len() < channels || self.opts.width_prediction_params.len() < channels {
            return Err(String::from_str("missing predictor parameters"));
        }
        let mut c: usize = 0;
        while c < channels
            invariant
                c <= channels,
                channels == channels_of(colorspace),
                self.opts.value_prediction_params@.len() >= channels,
                self.opts.width_prediction_params@.len() >= channels,
                forall|d: int| 0 <= d < c ==> params_ok(
                    (#[trigger] self.opts.value_prediction_params@[d])@,
                    self.opts.width_prediction_params@[d]@,
                ),
            decreases channels - c,
        {
            if self.opts.value_prediction_params[c].len() != PARAM_COUNT || self.opts.width_prediction_params[c].len() != PARAM_COUNT {
                return Err(String::from_str("predictor parameters need three groups of six"));
            }
            c = c + 1;
        }
        let raster = RasterImage { metadata, data };
        let ghost raster_view = raster;
        // Channel transform: the identity hook.
        let wavelet = WaveletImage::from_raster(raster);
        let wavelet = quantization_encode(wavelet);
        let mut coded: Vec<EncodedChannel> = Vec::new();
        let mut ch: usize = 0;
        while ch < channels
            invariant
                wavelet.wf(),
                wavelet.byte_bounded(),
                wavelet.metadata == metadata,
                metadata == (ImageMetadata { height, width, colorspace, variant: FractalVariant::TameTwindragon }),
                channels == channels_of(colorspace),
                self.opts.params_fit(channels as nat),
                ch <= channels,
                coded@.len() == ch,
                forall|d: int| 0 <= d < ch ==> channel_coded(wavelet, d, #[trigger] coded@[d]),
                forall|d: int|
                    0 <= d < ch ==> (#[trigger] coded@[d]).value_params@ == self.opts.value_prediction_params@[d]@
                        && coded@[d].width_params@ == self.opts.width_prediction_params@[d]@,
            decreases channels - ch,
        {
            proof {
                assert(params_ok(self.opts.value_prediction_params@[ch as int]@, self.opts.width_prediction_params@[ch as int]@));
            }
            let vp = copy_params(&self.opts.value_prediction_params[ch]);
            let wp = copy_params(&self.opts.width_prediction_params[ch]);
            let e = match encode_channel_data(&wavelet, ch, vp, wp) {
                Some(e) => e,
                None => {
                    return Err(String::from_str("a residual falls outside the symbol alphabet"));
                },
            };
            coded.push(e);
            ch = ch + 1;
        }
        Ok(EncodedImage { metadata, image: wavelet, channels: coded })
    }
}

pub fn copy_params(p: &Vec<i32>) -> (r: Vec<i32>)
    ensures
        r@ == p@,
{
    let mut r: Vec<i32> = Vec::new();
    let mut i: usize = 0;
    while i < p.len()
        invariant
            i <= p@.len(),
            r@ == p@.subrange(0, i as int),
        decreases p@.len() - i,
    {
        r.push(p[i]);
        i = i + 1;
        assert(r@ =~= p@.subrange(0, i as int));
    }
    assert(p@.subrange(0, p@.len() as int) =~= p@);
    r
}

pub fn copy_slots(p: &Vec<Option<i32>>) -> (r: Vec<Option<i32>>)
    ensures
        r@ == p@,
{
    let mut r: Vec<Option<i32>> = Vec::new();
    let mut i: usize = 0;
    while i < p.len()
        invariant
            i <= p@.len(),
            r@ == p@.subrange(0, i as int),
        decreases p@.len() - i,
    {
        r.push(p[i]);
        i = i + 1;
        assert(r@ =~= p@.subrange(0, i as int));
    }
    assert(p@.subrange(0, p@.len() as int) =~= p@);
    r
}

impl EncodedImage {
    /// The container of the image, given the rANS stream of each channel.
    pub fn to_compressed(&self, streams: Vec<Vec<u8>>) -> (r: CompressedImage)
        requires
            streams@.len() == self.channels@.len(),
        ensures
            r.metadata == self.metadata,
            r.channel_data@.len() == self.channels@.len(),
            forall|ch: int|
                0 <= ch < r.channel_data@.len() ==> {
                    let d = #[trigger] r.channel_data@[ch];
                    let c = self.channels@[ch];
                    &&& d.value_predictors@ == c.value_params@
                    &&& d.width_predictors@ == c.width_params@
                    &&& d.data@ == streams@[ch]@
                    &&& d.max_freq_bits@.len() == c.contexts@.len()
                    &&& forall|b: int| 0 <= b < c.contexts@.len() ==> #[trigger] d.max_freq_bits@[b] == c.contexts@[b].max_freq_bits
                },
    {
        let mut streams = streams;
        let mut out: Vec<ChannelData> = Vec::new();
        let n = self.channels.len();
        let mut tail: Vec<Vec<u8>> = Vec::new();
        // Take the streams in order.
        let ghost given = streams@;
        let mut i: usize = n;
        while i > 0
            invariant
                i <= n,
                n == self.channels@.len(),
                given.len() == n,
                streams@ == given.subrange(0, i as int),
                tail@.len() == n - i,
                forall|t: int| 0 <= t < n - i ==> #[trigger] tail@[t] == given[n - 1 - t],
            decreases i,
        {
            let s = streams.pop().unwrap();
            i = i - 1;
            proof {
                assert(streams@ =~= given.subrange(0, i as int));
            }
            tail.push(s);
        }
        let mut ch: usize = 0;
        while ch < n
            invariant
                ch <= n,
                n == self.channels@.len(),
                given.len() == n,
                tail@.len() == n - ch,
                forall|t: int| 0 <= t < n - ch ==> #[trigger] tail@[t] == given[n - 1 - t],
                out@.len() == ch,
                forall|d: int|
                    0 <= d < ch ==> {
                        let x = #[trigger] out@[d];
                        let c = self.channels@[d];
                        &&& x.value_predictors@ == c.value_params@
                        &&& x.width_predictors@ == c.width_params@
                        &&& x.data@ == given[d]@
                        &&& x.max_freq_bits@.len() == c.contexts@.len()
                        &&& forall|b: int| 0 <= b < c.contexts@.len() ==> #[trigger] x.max_freq_bits@[b] == c.contexts@[b].max_freq_bits
                    },
            decreases n - ch,
        {
            let c = &self.channels[ch];
            let mut bits: Vec<u32> = Vec::new();
            let mut b: usize = 0;
            while b < c.contexts.len()
                invariant
                    b <= c.contexts@.len(),
                    bits@.len() == b,
                    forall|t: int| 0 <= t < b ==> #[trigger] bits@[t] == c.contexts@[t].max_freq_bits,
                decreases c.contexts@.len() - b,
            {
                bits.push(c.contexts[b].max_freq_bits);
                b = b + 1;
            }
            let data = tail.pop().unwrap();
            out.push(ChannelData {
                value_predictors: copy_params(&c.value_params),
                width_predictors: copy_params(&c.width_params),
                max_freq_bits: bits,
                data,
            });
            ch = ch + 1;
        }
        CompressedImage { metadata: self.metadata, channel_data: out }
    }
}


/// The decoder's failure message: `Failed to decode: ` and the reason.
pub fn decode_failure(reason: &str) -> (r: String)
    ensures
        r@ == "Failed to decode: "@ + reason@,
{
    String::from_str("Failed to decode: ").concat(reason)
}

/// Decodes `.frif` streams.
pub struct FRIDecoder {}

/// What one channel of a stream holds: the tables rebuilt from the bucket
/// exponents, the rANS stream and the predictor parameters.
pub struct ChannelPlan {
    pub contexts: Vec<AnsContext>,
    pub data: Vec<u8>,
    pub value_params: Vec<i32>,
    pub width_params: Vec<i32>,
}

/// A parsed stream ready for entropy decoding: the tile geometry of the
/// image with every coefficient still 0, and each channel's plan.
pub struct DecodePlan {
    pub image: WaveletImage,
    pub channels: Vec<ChannelPlan>,
}

/// The stream's channels fit its metadata: one per channel, with three
/// groups of six parameters of each kind and one exponent per bucket.
pub open spec fn channels_fit(m: ImageMetadata, cs: Seq<ChannelSpec>) -> bool {
    &&& cs.len() == channels_of(m.colorspace)
    &&& forall|c: int|
        0 <= c < cs.len() ==> (#[trigger] cs[c]).value.len() == PARAM_COUNT && cs[c].width.len() == PARAM_COUNT
            && cs[c].bits.len() == CONTEXT_AMOUNT
}

pub open spec fn decode_accepts(b: Seq<u8>) -> bool {
    decode_spec(b) matches Ok((m, cs)) && m.sized() && channels_fit(m, cs)
}

impl FRIDecoder {
    pub fn new() -> (r: FRIDecoder) {
        FRIDecoder {}
    }

    /// Parses the stream and rebuilds what entropy decoding needs: the
    /// stages up to entropy decoding.
    pub fn decode(self, data: Vec<u8>) -> (r: Result<DecodePlan, String>)
        ensures
            r is Ok <==> decode_accepts(data@),
            decode_spec(data@) matches Err(e) ==> r matches Err(msg) && msg@ == "Failed to decode: "@
                + crate::images::message_spec(e),
            r matches Err(msg) ==> exists|rest: Seq<char>| msg@ == "Failed to decode: "@ + rest,
            r matches Ok(p) ==> {
                &&& decode_spec(data@) matches Ok((m, cs))
                &&& centers_of(p.image.fractal_lattice@) == tile_centers(m)
                &&& forall|j: int, ch: int|
                    0 <= j < p.image.fractal_lattice@.len() && 0 <= ch < channels_of(m.colorspace) ==> #[trigger] zero_tile(
                        p.image.fractal_lattice@[j],
                        m,
                        ch,
                    )
                &&& p.image.wf()
                &&& p.image.bounded()
                &&& p.image.metadata == m
                &&& p.channels@.len() == cs.len()
                &&& forall|c: int|
                    0 <= c < cs.len() ==> {
                        let pc = #[trigger] p.channels@[c];
                        &&& pc.data@ == cs[c].data
                        &&& pc.value_params@ == cs[c].value
                        &&& pc.width_params@ == cs[c].width
                        &&& pc.contexts@.len() == CONTEXT_AMOUNT
                        &&& forall|b: int|
                            0 <= b < CONTEXT_AMOUNT ==> is_finalized(#[trigger] pc.contexts@[b], b, clamp_bits(cs[c].bits[b]), no_observations())
                                && table_ok(pc.contexts@[b].freqs@, pc.contexts@[b].cdf@, pc.contexts@[b].max_freq_bits as nat)
                    }
            },
    {
        let compressed = match crate::serialize::decode(&data) {
            Ok(c) => c,
            Err(e) => {
                return Err(decode_failure(e.text()));
            },
        };
        let ghost cs = channel_views(compressed.channel_data@);
        let metadata = compressed.metadata;
        assert(decode_spec(data@) == Ok::<(ImageMetadata, Seq<ChannelSpec>), crate::images::SerializeError>((metadata, cs)));
        if metadata.width > MAX_SIDE || metadata.height > MAX_SIDE {
            return Err(decode_failure("image dimensions exceed the supported size"));
        }
        let channels = metadata.colorspace.num_channels();
        if compressed.channel_data.len() != channels {
            return Err(decode_failure("channel count does not match the colour space"));
        }
        let mut plans: Vec<ChannelPlan> = Vec::new();
        let mut rest = compressed.channel_data;
        let mut tail: Vec<ChannelData> = Vec::new();
        let ghost given = rest@;
        let mut i: usize = channels;
        while i > 0
            invariant
                decode_spec(data@) == Ok::<(ImageMetadata, Seq<ChannelSpec>), crate::images::SerializeError>((metadata, cs)),
                metadata.sized(),
                channels == channels_of(metadata.colorspace),
                cs == channel_views(given),
                i <= channels,
                given.len() == channels,
                rest@ == given.subrange(0, i as int),
                tail@.len() == channels - i,
                forall|t: int| 0 <= t < channels - i ==> #[trigger] tail@[t] == given[channels - 1 - t],
            decreases i,
        {
            let c = rest.pop().unwrap();
            i = i - 1;
            proof {
                assert(rest@ =~= given.subrange(0, i as int));
            }
            tail.push(c);
        }
        let mut ch: usize = 0;
        while ch < channels
            invariant
                decode_spec(data@) == Ok::<(ImageMetadata, Seq<ChannelSpec>), crate::images::SerializeError>((metadata, cs)),
                metadata.sized(),
                channels == channels_of(metadata.colorspace),
                ch <= channels,
                given.len() == channels,
                cs == channel_views(given),
                tail@.len() == channels - ch,
                forall|t: int| 0 <= t < channels - ch ==> #[trigger] tail@[t] == given[channels - 1 - t],
                plans@.len() == ch,
                forall|c: int| 0 <= c < ch ==> (#[trigger] cs[c]).value.len() == PARAM_COUNT && cs[c].width.len() == PARAM_COUNT
                    && cs[c].bits.len() == CONTEXT_AMOUNT,
                forall|c: int|
                    0 <= c < ch ==> {
                        let pc = #[trigger] plans@[c];
                        &&& pc.data@ == cs[c].data
                        &&& pc.value_params@ == cs[c].value
                        &&& pc.width_params@ == cs[c].width
                        &&& pc.contexts@.len() == CONTEXT_AMOUNT
                        &&& forall|b: int|
                            0 <= b < CONTEXT_AMOUNT ==> is_finalized(#[trigger] pc.contexts@[b], b, clamp_bits(cs[c].bits[b]), no_observations())
                                && table_ok(pc.contexts@[b].freqs@, pc.contexts@[b].cdf@, pc.contexts@[b].max_freq_bits as nat)
                    },
            decreases channels - ch,
        {
            let cd = tail.pop().unwrap();
            proof {
                assert(cd == given[ch as int]);
                assert(cs[ch as int] == cd@);
            }
            if cd.value_predictors.len() != PARAM_COUNT || cd.width_predictors.len() != PARAM_COUNT
                || cd.max_freq_bits.len() != CONTEXT_AMOUNT {
                proof {
                    assert(decode_spec(data@) == Ok::<(ImageMetadata, Seq<ChannelSpec>), crate::images::SerializeError>((metadata, cs)));
                    assert(!channels_fit(metadata, cs)) by {
                        assert(cs[ch as int] == cd@);
                    }
                }
                return Err(decode_failure("malformed channel segments"));
            }
            let mut contexts: Vec<AnsContext> = Vec::new();
            let mut b: usize = 0;
            while b < CONTEXT_AMOUNT
                invariant
                    b <= CONTEXT_AMOUNT,
                    cd.max_freq_bits@.len() == CONTEXT_AMOUNT,
                    contexts@.len() == b,
                    forall|t: int|
                        0 <= t < b ==> is_finalized(#[trigger] contexts@[t], t, clamp_bits(cd.max_freq_bits@[t]), no_observations())
                            && table_ok(contexts@[t].freqs@, contexts@[t].cdf@, contexts@[t].max_freq_bits as nat),
                decreases CONTEXT_AMOUNT - b,
            {
                let mut ctx = AnsContext::new();
                ctx.max_freq_bits = cd.max_freq_bits[b];
                proof {
                    assert(seen_set(ctx) =~= no_observations()) by {
                        assert forall|s: int| 0 <= s < ALPHABET_SIZE implies seen_set(ctx)[s] == no_observations()[s] by {
                            assert(!ctx.off_distribution_values@.contains(s as u16));
                        }
                    }
                }
                ctx.finalize_context(b);
                contexts.push(ctx);
                b = b + 1;
            }
            plans.push(ChannelPlan {
                contexts,
                data: cd.data,
                value_params: cd.value_predictors,
                width_params: cd.width_predictors,
            });
            ch = ch + 1;
        }
        let image = WaveletImage::from_metadata(metadata);
        let image = quantization_decode(image);
        proof {
            assert(decode_spec(data@) == Ok::<(ImageMetadata, Seq<ChannelSpec>), crate::images::SerializeError>((metadata, cs)));
            assert(channels_fit(metadata, cs));
        }
        Ok(DecodePlan { image, channels: plans })
    }
}

impl DecodePlan {
    /// Decodes channel `ch` from the symbols its rANS stream yields, in
    /// order; false, with the image untouched, when their number is not the
    /// number of coefficients or a symbol lies outside the alphabet.
    pub fn decode_channel(&mut self, ch: usize, symbols: &Vec<u32>) -> (r: bool)
        requires
            old(self).image.wf(),
            old(self).image.bounded(),
            ch < channels_of(old(self).image.metadata.colorspace),
            ch < old(self).channels@.len(),
            params_ok(old(self).channels@[ch as int].value_params@, old(self).channels@[ch as int].width_params@),
        ensures
            r == (symbols@.len() == order_spec(old(self).image, ch as int).len() && (forall|k: int|
                0 <= k < symbols@.len() ==> #[trigger] symbols@[k] < 1024) && decoded_fit(
                old(self).image,
                zeroed(old(self).image, ch as int),
                order_spec(old(self).image, ch as int),
                symbols@,
                old(self).channels@[ch as int].value_params@,
                old(self).channels@[ch as int].width_params@,
                symbols@.len(),
            )),
            final(self).image.wf(),
            final(self).image.bounded(),
            final(self).image.metadata == old(self).image.metadata,
            final(self).channels == old(self).channels,
            !r ==> final(self).image == old(self).image,
            r ==> forall|j: int|
                0 <= j < final(self).image.fractal_lattice@.len() ==> (#[trigger] final(self).image.fractal_lattice@[j]).coefficients@[ch as int]@
                    == apply(
                    zeroed(old(self).image, ch as int),
                    order_spec(old(self).image, ch as int),
                    dec_values(
                        old(self).image,
                        zeroed(old(self).image, ch as int),
                        order_spec(old(self).image, ch as int),
                        symbols@,
                        old(self).channels@[ch as int].value_params@,
                        old(self).channels@[ch as int].width_params@,
                        symbols@.len(),
                    ),
                    symbols@.len(),
                )[j],
    {
        let vp = copy_params(&self.channels[ch].value_params);
        let wp = copy_params(&self.channels[ch].width_params);
        let mut dec = ChannelDecoder::new(&self.image, ch, vp, wp);
        if dec.order.len() != symbols.len() {
            return false;
        }
        assert(dec.symbols@ =~= symbols@.subrange(0, 0));
        let mut k: usize = 0;
        while k < symbols.len()
            invariant
                dec.inv(self.image),
                self.image.bounded(),
                self.image == old(self).image,
                self.channels == old(self).channels,
                dec.channel == ch,
                dec.value_params@ == old(self).channels@[ch as int].value_params@,
                dec.width_params@ == old(self).channels@[ch as int].width_params@,
                dec.position == k,
                dec.order@.len() == symbols@.len(),
                k <= symbols@.len(),
                dec.symbols@ == symbols@.subrange(0, k as int),
                forall|t: int| 0 <= t < k ==> #[trigger] symbols@[t] < 1024,
                decoded_fit(self.image, zeroed(self.image, ch as int), dec.order@, symbols@, dec.value_params@, dec.width_params@, k as nat),
            decreases symbols@.len() - k,
        {
            if symbols[k] >= 1024 {
                return false;
            }
            proof {
                crate::codec::lemma_next_value(self.image, dec, symbols@);
                crate::codec::lemma_decoded_fit_step(
                    self.image,
                    zeroed(self.image, ch as int),
                    dec.order@,
                    symbols@,
                    dec.value_params@,
                    dec.width_params@,
                    k as nat,
                );
            }
            if !dec.accept(&self.image, symbols[k]) {
                proof {
                    if decoded_fit(
                        self.image,
                        zeroed(self.image, ch as int),
                        dec.order@,
                        symbols@,
                        dec.value_params@,
                        dec.width_params@,
                        symbols@.len(),
                    ) {
                        crate::codec::lemma_decoded_fit_prefix(
                            self.image,
                            zeroed(self.image, ch as int),
                            dec.order@,
                            symbols@,
                            dec.value_params@,
                            dec.width_params@,
                            (k + 1) as nat,
                            symbols@.len(),
                        );
                    }
                }
                return false;
            }
            k = k + 1;
            assert(dec.symbols@ =~= symbols@.subrange(0, k as int));
        }
        assert(dec.symbols@ =~= symbols@);
        let ghost st = view_state(dec.state@);
        dec.finish(&mut self.image);
        true
    }

    /// The stages after entropy decoding: dequantization (the identity),
    /// the inverse wavelet transform and the inverse channel transform (the
    /// identity hook).
    pub fn finish(self) -> (r: RasterImage)
        requires
            self.image.wf(),
            self.image.bounded(),
        ensures
            r.wf(),
            r.metadata == self.image.metadata,
            r.data@ == crate::wavelet::write_cells(
                Seq::new(self.image.metadata.sample_count(), |i: int| 0u8),
                self.image.metadata,
                self.image.fractal_lattice@,
                self.image.fractal_lattice@.len(),
            ),
    {
        let image = quantization_decode(self.image);
        RasterImage::from_wavelet(image)
    }
}


/// What `EncodedImage::to_compressed` gives for an encoded image.
pub open spec fn compressed_from(e: EncodedImage, ci: CompressedImage) -> bool {
    &&& ci.metadata == e.metadata
    &&& ci.channel_data@.len() == e.channels@.len()
    &&& forall|ch: int|
        0 <= ch < ci.channel_data@.len() ==> {
            let d = #[trigger] ci.channel_data@[ch];
            let c = e.channels@[ch];
            &&& d.value_predictors@ == c.value_params@
            &&& d.width_predictors@ == c.width_params@
            &&& d.data@.len() < 0x1_0000_0000_0000_0000
            &&& d.max_freq_bits@.len() == c.contexts@.len()
        }
}

/// A stream laid out from what the encoder accepted is accepted by the
/// decoder, with the encoder's size, colour space and channel count, and
/// with each channel's parameters, exponents and payload as written.
pub proof fn lemma_encoded_stream_decodes(e: EncodedImage, ci: CompressedImage)
    requires
        e.metadata.sized(),
        e.channels@.len() == channels_of(e.metadata.colorspace),
        forall|ch: int| 0 <= ch < e.channels@.len() ==> channel_coded(e.image, ch, #[trigger] e.channels@[ch]),
        compressed_from(e, ci),
    ensures
        decode_accepts(image_bytes(ci)),
        decode_spec(image_bytes(ci)) == Ok::<(ImageMetadata, Seq<ChannelSpec>), crate::images::SerializeError>(
            (e.metadata, channel_views(ci.channel_data@)),
        ),
{
    let cs = channel_views(ci.channel_data@);
    assert forall|i: int| 0 <= i < ci.channel_data@.len() implies channel_fits(#[trigger] cs[i]) by {
        assert(channel_coded(e.image, i, e.channels@[i]));
        assert(cs[i] == ci.channel_data@[i]@);
    }
    lemma_stream_round_trip(ci);
    assert forall|c: int| 0 <= c < cs.len() implies (#[trigger] cs[c]).value.len() == PARAM_COUNT && cs[c].width.len()
        == PARAM_COUNT && cs[c].bits.len() == CONTEXT_AMOUNT by {
        assert(channel_coded(e.image, c, e.channels@[c]));
        assert(cs[c] == ci.channel_data@[c]@);
    }
}

} // verus!

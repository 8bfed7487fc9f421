use libfri::codec::ChannelDecoder;
use libfri::entropy::{find_nearest_or_equal, find_symbol, AnsContext, ALPHABET_SIZE};
use libfri::images::{ColorSpace, FractalVariant, ImageMetadata, RasterImage};
use libfri::pipeline::{EncodedImage, EncoderOpts, FRIDecoder, FRIEncoder};
use libfri::prediction::CONTEXT_AMOUNT;
use libfri::serialize;
use libfri::wavelet::WaveletImage;

fn encode(data: &[u8], width: u32, height: u32, colorspace: ColorSpace) -> EncodedImage {
    FRIEncoder::new(EncoderOpts::default_opts())
        .encode(data.to_vec(), height, width, colorspace)
        .expect("encoding succeeds")
}

/// Encodes, lays the image out as bytes, parses it back and decodes every
/// channel from the encoder's symbols (what a lossless rANS layer returns).
fn round_trip(data: &[u8], width: u32, height: u32, colorspace: ColorSpace) -> RasterImage {
    let encoded = encode(data, width, height, colorspace);
    for ch in &encoded.channels {
        for &(bucket, symbol) in &ch.symbols {
            assert!(bucket < CONTEXT_AMOUNT);
            assert!((symbol as usize) < ALPHABET_SIZE);
            assert!(ch.contexts[bucket].freqs[symbol as usize] >= 1);
        }
    }
    let streams: Vec<Vec<u8>> = encoded.channels.iter().map(|_| vec![1, 2, 3]).collect();
    let bytes = serialize::encode(&encoded.to_compressed(streams)).unwrap();
    let mut plan = FRIDecoder::new().decode(bytes).expect("stream parses");
    for (ch, coded) in encoded.channels.iter().enumerate() {
        assert_eq!(plan.channels[ch].data, vec![1, 2, 3]);
        for b in 0..CONTEXT_AMOUNT {
            assert_eq!(plan.channels[ch].contexts[b].max_freq_bits, coded.contexts[b].max_freq_bits);
            if coded.contexts[b].off_distribution_values.is_empty() {
                assert_eq!(plan.channels[ch].contexts[b].freqs, coded.contexts[b].freqs);
                assert_eq!(plan.channels[ch].contexts[b].cdf, coded.contexts[b].cdf);
            }
        }
        let symbols: Vec<u32> = coded.symbols.iter().map(|s| s.1).collect();
        assert!(plan.decode_channel(ch, &symbols));
    }
    plan.finish()
}

#[test]
fn solid_gray_luma_round_trip() {
    let data = vec![128u8; 17 * 8];
    let out = round_trip(&data, 17, 8, ColorSpace::Luma);
    assert_eq!(out.metadata.width, 17);
    assert_eq!(out.metadata.height, 8);
    assert_eq!(out.metadata.colorspace, ColorSpace::Luma);
    assert_eq!(out.data, data);
}

#[test]
fn rgb_alternating_round_trip() {
    let (w, h) = (88usize, 15usize);
    let mut data = Vec::with_capacity(w * h * 3);
    for y in 0..h {
        for x in 0..w {
            let v = if (x + y) % 2 == 0 { 0 } else { 255 };
            data.extend_from_slice(&[v, v, v]);
        }
    }
    let out = round_trip(&data, w as u32, h as u32, ColorSpace::RGB);
    assert_eq!(out.metadata.colorspace, ColorSpace::RGB);
    assert_eq!(out.data, data);
}

#[test]
fn natural_rgb_round_trip() {
    let (w, h) = (202usize, 149usize);
    let mut data = Vec::with_capacity(w * h * 3);
    let mut seed: u32 = 12345;
    for y in 0..h {
        for x in 0..w {
            seed = seed.wrapping_mul(1103515245).wrapping_add(12345);
            let noise = ((seed >> 16) % 9) as i32 - 4;
            let r = (x as i32 + noise).clamp(0, 255) as u8;
            let g = ((y as i32 * 3) / 2 + noise).clamp(0, 255) as u8;
            let b = (((x + y) as i32) / 2 - noise).clamp(0, 255) as u8;
            data.extend_from_slice(&[r, g, b]);
        }
    }
    let out = round_trip(&data, w as u32, h as u32, ColorSpace::RGB);
    assert_eq!(out.metadata.width as usize, w);
    assert_eq!(out.metadata.height as usize, h);
    assert_eq!(out.data, data);
}

#[test]
fn zero_image_round_trip() {
    let data = vec![0u8; 100];
    let encoded = encode(&data, 10, 10, ColorSpace::Luma);
    for cell in &encoded.image.fractal_lattice {
        assert_eq!(cell.coefficients[0][0], Some(0));
    }
    let out = round_trip(&data, 10, 10, ColorSpace::Luma);
    assert_eq!(out.data, data);
}

#[test]
fn lattice_of_444_by_258() {
    let wavelet = WaveletImage::from_metadata(ImageMetadata::new(444, 258));
    assert!(!wavelet.fractal_lattice.is_empty());
    let mut centered = false;
    for cell in &wavelet.fractal_lattice {
        assert_eq!(cell.depth, 9);
        if cell.image_positions[1] == cell.center {
            centered = true;
        }
    }
    assert!(centered);
    let n = wavelet.fractal_lattice.len();
    let leaves = &wavelet.get_sorted_lattice()[8];
    assert_eq!(leaves.len(), n * 256);
    for w in leaves.windows(2) {
        assert!((w[0].y, w[0].x) < (w[1].y, w[1].x));
    }
    let set: std::collections::HashSet<(i32, i32)> = leaves.iter().map(|c| (c.x, c.y)).collect();
    for cell in &wavelet.fractal_lattice {
        for i in 256..512 {
            let p = cell.image_positions[i];
            assert!(set.contains(&(p.x, p.y)));
        }
    }
    let total: usize = wavelet.sorted_lattice.iter().map(|l| l.len()).sum();
    assert_eq!(total, n * 511);
}

#[test]
fn laplace_seeded_bucket() {
    let mut ctx = AnsContext::new();
    ctx.bump_freq(libfri::utils::pack_signed(0));
    ctx.max_freq_bits = libfri::pipeline::floor_log2(1);
    ctx.finalize_context(0);
    let total: u64 = ctx.freqs.iter().map(|&f| f as u64).sum();
    assert_eq!(ctx.max_freq_bits, 8);
    assert_eq!(total, 256);
    let max = *ctx.freqs.iter().max().unwrap();
    assert_eq!(ctx.freqs[0], max);
    for s in 1..ALPHABET_SIZE {
        assert!(ctx.freqs[s] <= ctx.freqs[0]);
    }
}

#[test]
fn seeding_is_deterministic() {
    for bucket in 0..CONTEXT_AMOUNT {
        let mut a = AnsContext::new();
        a.max_freq_bits = 14;
        a.bump_freq(3);
        a.finalize_context(bucket);
        let mut b = AnsContext::new();
        b.max_freq_bits = 14;
        b.finalize_context(bucket);
        assert_eq!(a.freqs, b.freqs);
        assert_eq!(a.cdf, b.cdf);
    }
}

#[test]
fn table_lookup_inverts_intervals() {
    let mut ctx = AnsContext::new();
    ctx.max_freq_bits = 12;
    ctx.finalize_context(3);
    for s in 0..ALPHABET_SIZE {
        if ctx.freqs[s] == 0 {
            continue;
        }
        for t in [0, ctx.freqs[s] - 1] {
            let cf = ctx.cdf[s] + t;
            assert_eq!(find_symbol(cf, &ctx.cdf), s);
            assert_eq!(find_nearest_or_equal(cf, &ctx.cdf), ctx.cdf[s]);
        }
    }
}

#[test]
fn normalize_gives_every_seen_symbol_a_unit() {
    let mut ctx = AnsContext::new();
    for s in 0..ALPHABET_SIZE {
        ctx.freqs[s] = if s == 5 { 1_000_000 } else { 1 };
    }
    let cdf = ctx.normalize_freqs(4096);
    let total: u64 = ctx.freqs.iter().map(|&f| f as u64).sum();
    assert_eq!(total, 4096);
    assert!(ctx.freqs.iter().all(|&f| f >= 1));
    assert_eq!(cdf[0], 0);
    assert_eq!(ctx.freqs[5], 4096 - 1023);
}

#[test]
fn predictor_agreement_on_shared_state() {
    let (w, h) = (40usize, 30usize);
    let data: Vec<u8> = (0..w * h).map(|i| ((i * 37) % 251) as u8).collect();
    let encoded = encode(&data, w as u32, h as u32, ColorSpace::Luma);
    let image = &encoded.image;
    let coded = &encoded.channels[0];
    let mut dec = ChannelDecoder::new(image, 0, coded.value_params.clone(), coded.width_params.clone());
    let mut k = 0;
    while !dec.is_done() {
        assert_eq!(dec.next_context(image), coded.symbols[k].0);
        assert!(dec.accept(image, coded.symbols[k].1));
        k += 1;
    }
    assert_eq!(k, coded.symbols.len());
}

#[test]
fn off_distribution_symbol_gets_a_unit() {
    let mut ctx = AnsContext::new();
    ctx.bump_freq(1000);
    ctx.max_freq_bits = 8;
    ctx.finalize_context(0);
    assert_eq!(ctx.off_distribution_values, vec![1000u16]);
    assert!(ctx.freqs[1000] >= 1);
    let mut fresh = AnsContext::new();
    fresh.max_freq_bits = 8;
    fresh.finalize_context(0);
    assert_eq!(fresh.freqs[1000], 0);
    assert_eq!(fresh.freqs.iter().map(|&f| f as u64).sum::<u64>(), 256);
}

#[test]
fn decoder_failure_message() {
    let r = FRIDecoder::new().decode(vec![0u8; 16]);
    assert_eq!(r.err(), Some(String::from("Failed to decode: Invalid signature for FRIF image.")));
}

#[test]
fn encoder_keeps_caller_parameters() {
    let mut opts = EncoderOpts::default_opts();
    opts.value_prediction_params[0] = (0..18).map(|i| 1000 + i).collect();
    let data = vec![9u8; 20 * 12];
    let e = FRIEncoder::new(opts).encode(data, 12, 20, ColorSpace::Luma).unwrap();
    assert_eq!(e.channels[0].value_params, (0..18).map(|i| 1000 + i).collect::<Vec<i32>>());
}

#[test]
fn encoder_rejects_wrong_length() {
    let r = FRIEncoder::new(EncoderOpts::default_opts()).encode(vec![0; 10], 4, 4, ColorSpace::Luma);
    assert!(r.is_err());
}

#[test]
fn encoder_rejects_oversized_image() {
    let r = FRIEncoder::new(EncoderOpts::default_opts()).encode(vec![], 0, 9000, ColorSpace::Luma);
    assert!(r.is_err());
}

#[test]
fn decoder_rejects_bad_signature() {
    let r = FRIDecoder::new().decode(b"fri?0000000000000000".to_vec());
    assert!(r.is_err());
}

#[test]
fn decode_channel_refuses_wrong_symbol_count() {
    let data = vec![7u8; 64];
    let encoded = encode(&data, 8, 8, ColorSpace::Luma);
    let streams = vec![vec![]];
    let bytes = serialize::encode(&encoded.to_compressed(streams)).unwrap();
    let mut plan = FRIDecoder::new().decode(bytes).unwrap();
    assert!(!plan.decode_channel(0, &vec![0u32; 1]));
    assert!(!plan.decode_channel(0, &vec![5000u32; encoded.channels[0].symbols.len()]));
}

#[test]
fn metadata_is_kept() {
    let encoded = encode(&vec![1u8; 12 * 9 * 3], 12, 9, ColorSpace::YCbCr);
    assert_eq!(
        encoded.metadata,
        ImageMetadata { height: 9, width: 12, colorspace: ColorSpace::YCbCr, variant: FractalVariant::TameTwindragon }
    );
    assert_eq!(encoded.channels.len(), 3);
}

use libfri::images::{ColorSpace, FractalVariant, ImageMetadata, SerializeError};
use libfri::serialize::{self, ChannelData, CompressedImage};

fn meta(colorspace: ColorSpace, variant: FractalVariant) -> ImageMetadata {
    ImageMetadata { height: 149, width: 202, colorspace, variant }
}

fn channel(fill: i32, data: Vec<u8>) -> ChannelData {
    ChannelData {
        value_predictors: (0..18).map(|i| fill + i).collect(),
        width_predictors: (0..18).map(|i| -fill * i).collect(),
        max_freq_bits: (0..10).map(|b| 8 + b).collect(),
        data,
    }
}

#[test]
fn header_layout() {
    let img = CompressedImage { metadata: meta(ColorSpace::RGB, FractalVariant::Twindragon), channel_data: vec![] };
    let bytes = serialize::encode(&img).unwrap();
    assert_eq!(&bytes[0..4], b"frif");
    assert_eq!(&bytes[4..8], &149u32.to_le_bytes());
    assert_eq!(&bytes[8..12], &202u32.to_le_bytes());
    assert_eq!(&bytes[12..16], &((0b10u32 << 30) | (0b10u32 << 28)).to_le_bytes());
    assert_eq!(&bytes[16..], &[0xFF, 0xDF]);
}

#[test]
fn header_round_trip_all_kinds() {
    for cs in [ColorSpace::Luma, ColorSpace::RGB, ColorSpace::YCbCr] {
        for v in [FractalVariant::TameTwindragon, FractalVariant::Twindragon, FractalVariant::Boxes] {
            let m = meta(cs, v);
            let img = CompressedImage { metadata: m, channel_data: vec![] };
            let bytes = serialize::encode(&img).unwrap();
            let back = serialize::decode(&bytes).unwrap();
            assert_eq!(back.metadata, m);
            assert_eq!(serialize::parse_header(&bytes), Ok(m));
        }
    }
}

#[test]
fn stream_round_trip() {
    let img = CompressedImage {
        metadata: meta(ColorSpace::RGB, FractalVariant::TameTwindragon),
        channel_data: vec![channel(5, vec![1, 2, 3]), channel(-7, vec![]), channel(100, vec![0xFF; 40])],
    };
    let bytes = serialize::encode(&img).unwrap();
    assert_eq!(bytes.len(), 16 + 3 * (2 + 144 + 10 * 6 + 10 + 2) + 3 + 40 + 2);
    let back = serialize::decode(&bytes).unwrap();
    assert_eq!(back.channel_data.len(), 3);
    for (a, b) in back.channel_data.iter().zip(img.channel_data.iter()) {
        assert_eq!(a.value_predictors, b.value_predictors);
        assert_eq!(a.width_predictors, b.width_predictors);
        assert_eq!(a.max_freq_bits, b.max_freq_bits);
        assert_eq!(a.data, b.data);
    }
}

#[test]
fn invalid_signature() {
    assert_eq!(serialize::decode(&b"fraf0000000000000000".to_vec()).err(), Some(SerializeError::InvalidSignature));
    assert_eq!(serialize::decode(&b"fr".to_vec()).err(), Some(SerializeError::InvalidSignature));
}

#[test]
fn invalid_metadata() {
    let mut bytes = serialize::encode(&CompressedImage {
        metadata: meta(ColorSpace::Luma, FractalVariant::Boxes),
        channel_data: vec![],
    })
    .unwrap();
    bytes[15] &= 0x3F;
    assert_eq!(serialize::decode(&bytes).err(), Some(SerializeError::InvalidMetadata));
}

#[test]
fn malformed_bytes() {
    let mut bytes = serialize::encode(&CompressedImage {
        metadata: meta(ColorSpace::Luma, FractalVariant::Boxes),
        channel_data: vec![channel(1, vec![9; 4])],
    })
    .unwrap();
    let truncated = bytes[..bytes.len() - 5].to_vec();
    assert_eq!(serialize::decode(&truncated).err(), Some(SerializeError::MalformedImageBytes));
    bytes[17] = 0x00;
    assert_eq!(serialize::decode(&bytes).err(), Some(SerializeError::MalformedImageBytes));
    assert_eq!(serialize::decode(&b"frif0000".to_vec()).err(), Some(SerializeError::MalformedImageBytes));
}

#[test]
fn encodings_of_kinds() {
    assert_eq!(ColorSpace::Luma.get_encoding(), 1);
    assert_eq!(ColorSpace::RGB.get_encoding(), 2);
    assert_eq!(ColorSpace::YCbCr.get_encoding(), 3);
    assert_eq!(FractalVariant::Boxes.get_encoding(), 3);
    assert_eq!(ColorSpace::from_encoding(0).err(), Some(SerializeError::InvalidMetadata));
    assert_eq!(FractalVariant::from_encoding(2), Ok(FractalVariant::Twindragon));
    assert_eq!(ColorSpace::RGB.num_channels(), 3);
    assert_eq!(ColorSpace::Luma.num_channels(), 1);
    assert_eq!(SerializeError::InvalidSignature.message(), "Invalid signature for FRIF image.");
}

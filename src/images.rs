//! Image descriptions shared by the encoder and the decoder.
use vstd::prelude::*;

verus! {

/// The colour model of a raster.
#[derive(Clone, Copy, Debug, PartialEq, Eq, Structural)]
pub enum ColorSpace {
    Luma,
    YCbCr,
    RGB,
}

/// The tile shape the lattice is built from.
#[derive(Clone, Copy, Debug, PartialEq, Eq, Structural)]
pub enum FractalVariant {
    TameTwindragon,
    Twindragon,
    Boxes,
}

/// What goes wrong when a byte stream is read back.
#[derive(Clone, Copy, Debug, PartialEq, Eq, Structural)]
pub enum SerializeError {
    /// The stream does not begin with the four bytes `frif`.
    InvalidSignature,
    /// The colour space or variant bits of the header name no known value.
    InvalidMetadata,
    /// An unknown segment marker, or the stream ends inside a segment.
    MalformedImageBytes,
}

impl SerializeError {
    /// A human-readable description of the error.
    pub fn message(&self) -> (r: String)
        ensures
            r@ == message_spec(*self),
    {
        String::from_str(self.text())
    }

    /// The description as a string slice.
    pub fn text(&self) -> (r: &'static str)
        ensures
            r@ == message_spec(*self),
    {
        match self {
            SerializeError::InvalidSignature => "Invalid signature for FRIF image.",
            SerializeError::InvalidMetadata => "Invalid metadata",
            SerializeError::MalformedImageBytes => "Malformed image bytes",
        }
    }
}

pub open spec fn message_spec(e: SerializeError) -> Seq<char> {
    match e {
        SerializeError::InvalidSignature => "Invalid signature for FRIF image."@,
        SerializeError::InvalidMetadata => "Invalid metadata"@,
        SerializeError::MalformedImageBytes => "Malformed image bytes"@,
    }
}

pub open spec fn channels_of(c: ColorSpace) -> nat {
    match c {
        ColorSpace::Luma => 1,
        ColorSpace::YCbCr => 3,
        ColorSpace::RGB => 3,
    }
}

pub open spec fn colorspace_code(c: ColorSpace) -> u32 {
    match c {
        ColorSpace::Luma => 1,
        ColorSpace::RGB => 2,
        ColorSpace::YCbCr => 3,
    }
}

pub open spec fn variant_code(v: FractalVariant) -> u32 {
    match v {
        FractalVariant::TameTwindragon => 1,
        FractalVariant::Twindragon => 2,
        FractalVariant::Boxes => 3,
    }
}

impl ColorSpace {
    pub fn num_channels(&self) -> (r: usize)
        ensures
            r == channels_of(*self),
    {
        match self {
            ColorSpace::Luma => 1,
            ColorSpace::YCbCr => 3,
            ColorSpace::RGB => 3,
        }
    }

    /// The two-bit code of the colour space in a stream header.
    pub fn get_encoding(&self) -> (r: u32)
        ensures
            r == colorspace_code(*self),
    {
        match self {
            ColorSpace::Luma => 0b01,
            ColorSpace::RGB => 0b10,
            ColorSpace::YCbCr => 0b11,
        }
    }

    pub fn from_encoding(val: u8) -> (r: Result<ColorSpace, SerializeError>)
        ensures
            match r {
                Ok(c) => colorspace_code(c) == val as u32,
                Err(e) => e == SerializeError::InvalidMetadata && (val == 0 || val > 3),
            },
    {
        match val {
            0b01 => Ok(ColorSpace::Luma),
            0b10 => Ok(ColorSpace::RGB),
            0b11 => Ok(ColorSpace::YCbCr),
            _ => Err(SerializeError::InvalidMetadata),
        }
    }
}

impl FractalVariant {
    /// The two-bit code of the variant in a stream header.
    pub fn get_encoding(&self) -> (r: u32)
        ensures
            r == variant_code(*self),
    {
        match self {
            FractalVariant::TameTwindragon => 0b01,
            FractalVariant::Twindragon => 0b10,
            FractalVariant::Boxes => 0b11,
        }
    }

    pub fn from_encoding(val: u8) -> (r: Result<FractalVariant, SerializeError>)
        ensures
            match r {
                Ok(v) => variant_code(v) == val as u32,
                Err(e) => e == SerializeError::InvalidMetadata && (val == 0 || val > 3),
            },
    {
        match val {
            0b01 => Ok(FractalVariant::TameTwindragon),
            0b10 => Ok(FractalVariant::Twindragon),
            0b11 => Ok(FractalVariant::Boxes),
            _ => Err(SerializeError::InvalidMetadata),
        }
    }
}

/// Size and colour model of an image.
#[derive(Clone, Copy, Debug, PartialEq, Eq, Structural)]
pub struct ImageMetadata {
    pub height: u32,
    pub width: u32,
    pub colorspace: ColorSpace,
    pub variant: FractalVariant,
}

/// The largest side the codec accepts; it keeps every pixel index and
/// every tile coordinate far from the integer limits.
pub const MAX_SIDE: u32 = 8192;

impl ImageMetadata {
    /// A Luma image of the given size on the default tiling.
    pub fn new(width: u32, height: u32) -> (r: ImageMetadata)
        ensures
            r.width == width,
            r.height == height,
            r.colorspace == ColorSpace::Luma,
            r.variant == FractalVariant::TameTwindragon,
    {
        ImageMetadata {
            height,
            width,
            colorspace: ColorSpace::Luma,
            variant: FractalVariant::TameTwindragon,
        }
    }

    pub open spec fn sized(&self) -> bool {
        self.width <= MAX_SIDE && self.height <= MAX_SIDE
    }

    /// The number of samples of an image with this metadata.
    pub open spec fn sample_count(&self) -> nat {
        (self.width * self.height * channels_of(self.colorspace)) as nat
    }

    pub fn samples(&self) -> (r: usize)
        requires
            self.sized(),
        ensures
            r == self.sample_count(),
    {
        proof {
            lemma_sample_bound(*self);
        }
        (self.width as usize) * (self.height as usize) * self.colorspace.num_channels()
    }
}

pub proof fn lemma_sample_bound(m: ImageMetadata)
    requires
        m.sized(),
    ensures
        m.width * m.height <= MAX_SIDE * MAX_SIDE,
        m.sample_count() <= 3 * MAX_SIDE * MAX_SIDE,
{
    assert(m.width * m.height <= MAX_SIDE * MAX_SIDE) by (nonlinear_arith)
        requires
            m.width <= MAX_SIDE,
            m.height <= MAX_SIDE,
    ;
    assert(m.width * m.height * channels_of(m.colorspace) <= 3 * MAX_SIDE * MAX_SIDE)
        by (nonlinear_arith)
        requires
            m.width * m.height <= MAX_SIDE * MAX_SIDE,
            channels_of(m.colorspace) <= 3,
    ;
}

/// An interleaved 8-bit raster: sample `c` of pixel `(x, y)` is at
/// `(y * width + x) * channels + c`.
#[derive(Clone, Debug)]
pub struct RasterImage {
    pub metadata: ImageMetadata,
    pub data: Vec<u8>,
}

pub open spec fn sample_index(m: ImageMetadata, x: int, y: int, channel: int) -> int {
    (y * m.width + x) * channels_of(m.colorspace) + channel
}

pub open spec fn in_image(m: ImageMetadata, x: int, y: int) -> bool {
    0 <= x < m.width && 0 <= y < m.height
}

pub proof fn lemma_sample_index(m: ImageMetadata, x: int, y: int, channel: int)
    requires
        m.sized(),
        in_image(m, x, y),
        0 <= channel < channels_of(m.colorspace),
    ensures
        0 <= sample_index(m, x, y, channel) < m.sample_count(),
{
    let w = m.width as int;
    let h = m.height as int;
    let c = channels_of(m.colorspace) as int;
    assert(0 <= y * w + x < w * h) by (nonlinear_arith)
        requires
            0 <= x < w,
            0 <= y < h,
    ;
    assert(0 <= (y * w + x) * c + channel < w * h * c) by (nonlinear_arith)
        requires
            0 <= y * w + x < w * h,
            0 <= channel < c,
    ;
}

pub open spec fn clamp_byte(v: int) -> u8 {
    if v < 0 {
        0
    } else if v > 255 {
        255
    } else {
        v as u8
    }
}

impl RasterImage {
    pub open spec fn wf(&self) -> bool {
        self.metadata.sized() && self.data@.len() == self.metadata.sample_count()
    }

    /// A raster of the given metadata with every sample zero.
    pub fn blank(metadata: ImageMetadata) -> (r: RasterImage)
        requires
            metadata.sized(),
        ensures
            r.wf(),
            r.metadata == metadata,
            forall|i: int| 0 <= i < r.data@.len() ==> r.data@[i] == 0,
    {
        let n = metadata.samples();
        RasterImage { metadata, data: vec![0u8; n] }
    }

    pub open spec fn pixel(&self, x: int, y: int, channel: int) -> Option<i32> {
        if in_image(self.metadata, x, y) {
            Some(self.data@[sample_index(self.metadata, x, y, channel)] as i32)
        } else {
            None
        }
    }

    /// The sample at `(x, y)`, or `None` outside the image.
    pub fn get_pixel(&self, x: i32, y: i32, channel: usize) -> (r: Option<i32>)
        requires
            self.wf(),
            channel < channels_of(self.metadata.colorspace),
        ensures
            r == self.pixel(x as int, y as int, channel as int),
    {
        if x >= 0 && y >= 0 && (x as u32) < self.metadata.width && (y as u32)
            < self.metadata.height {
            proof {
                lemma_sample_index(self.metadata, x as int, y as int, channel as int);
                lemma_sample_bound(self.metadata);
            }
            let position = ((y as usize) * (self.metadata.width as usize) + (x as usize))
                * self.metadata.colorspace.num_channels() + channel;
            Some(self.data[position] as i32)
        } else {
            None
        }
    }

    /// Writes `value`, clamped to `0..=255`, at `(x, y)`; does nothing
    /// outside the image.
    pub fn set_pixel(&mut self, x: i32, y: i32, value: i32, channel: usize)
        requires
            old(self).wf(),
            channel < channels_of(old(self).metadata.colorspace),
        ensures
            final(self).wf(),
            final(self).metadata == old(self).metadata,
            in_image(old(self).metadata, x as int, y as int) ==> final(self).data@
                == old(self).data@.update(
                sample_index(old(self).metadata, x as int, y as int, channel as int),
                clamp_byte(value as int),
            ),
            !in_image(old(self).metadata, x as int, y as int) ==> final(self).data@
                == old(self).data@,
    {
        if x >= 0 && y >= 0 && (x as u32) < self.metadata.width && (y as u32)
            < self.metadata.height {
            proof {
                lemma_sample_index(self.metadata, x as int, y as int, channel as int);
                lemma_sample_bound(self.metadata);
            }
            let position = ((y as usize) * (self.metadata.width as usize) + (x as usize))
                * self.metadata.colorspace.num_channels() + channel;
            let v: u8 = if value < 0 {
                0
            } else if value > 255 {
                255
            } else {
                value as u8
            };
            self.data.set(position, v);
        }
    }
}

} // verus!

//! The data model of the container format: color types, the image header,
//! parsed chunks, per-row filter tags, and the decoded image value.

use vstd::prelude::*;

use crate::error::DecodeError;

verus! {

/// The color model a pixel is stored in, as named by the header's
/// color-type code (0, 2, 3, 4 or 6).
#[derive(Clone, Copy, Debug, PartialEq, Eq, Structural)]
pub enum ColorType {
    Grayscale,
    Rgb,
    Palette,
    GrayscaleAlpha,
    Rgba,
}

impl ColorType {
    /// How many samples (channels) one pixel holds in this color model.
    pub open spec fn spec_channels(self) -> nat {
        match self {
            ColorType::Grayscale => 1,
            ColorType::Rgb => 3,
            ColorType::Palette => 1,
            ColorType::GrayscaleAlpha => 2,
            ColorType::Rgba => 4,
        }
    }

    /// The color type a header byte denotes, if the code is one of the
    /// five the format defines.
    pub open spec fn spec_from_code(code: u8) -> Option<ColorType> {
        if code == 0 {
            Some(ColorType::Grayscale)
        } else if code == 2 {
            Some(ColorType::Rgb)
        } else if code == 3 {
            Some(ColorType::Palette)
        } else if code == 4 {
            Some(ColorType::GrayscaleAlpha)
        } else if code == 6 {
            Some(ColorType::Rgba)
        } else {
            None
        }
    }

    pub fn num_channels(&self) -> (n: u8)
        ensures
            n as nat == self.spec_channels(),
            1 <= n <= 4,
    {
        match self {
            ColorType::Grayscale => 1,
            ColorType::Rgb => 3,
            ColorType::Palette => 1,
            ColorType::GrayscaleAlpha => 2,
            ColorType::Rgba => 4,
        }
    }

    /// Decodes a header color-type byte; an unknown code is an
    /// unsupported-color-type error.
    pub fn from_code(code: u8) -> (r: Result<ColorType, DecodeError>)
        ensures
            (match Self::spec_from_code(code) {
                Some(c) => r == Ok::<ColorType, DecodeError>(c),
                None => r == Err::<ColorType, DecodeError>(DecodeError::UnsupportedColorType),
            }),
    {
        match code {
            0 => Ok(ColorType::Grayscale),
            2 => Ok(ColorType::Rgb),
            3 => Ok(ColorType::Palette),
            4 => Ok(ColorType::GrayscaleAlpha),
            6 => Ok(ColorType::Rgba),
            _ => Err(DecodeError::UnsupportedColorType),
        }
    }
}

/// The contents of the mandatory first chunk; every downstream size is
/// derived from it. Immutable once parsed.
#[derive(Clone, Copy, Debug, PartialEq, Eq, Structural)]
pub struct ImageHeader {
    pub width: u32,
    pub height: u32,
    pub bit_depth: u8,
    pub color_type: ColorType,
    pub compression_method: u8,
    pub filter_method: u8,
    pub interlace_method: bool,
}

impl ImageHeader {
    /// Bytes one sample occupies: the bit depth is byte-aligned whenever
    /// the defilter engine runs, so this is exact there.
    pub open spec fn spec_bytes_per_channel(self) -> nat {
        (self.bit_depth / 8) as nat
    }

    /// Bytes one pixel occupies.
    pub open spec fn spec_bytes_per_pixel(self) -> nat {
        self.color_type.spec_channels() * self.spec_bytes_per_channel()
    }

    /// Bytes one scanline's samples occupy, without the filter tag.
    pub open spec fn spec_bytes_per_row(self) -> nat {
        self.width as nat * self.spec_bytes_per_pixel()
    }

    pub fn num_bytes_per_pixel(&self) -> (n: usize)
        ensures
            n as nat == self.spec_bytes_per_pixel(),
            n <= 124,
    {
        let ch: usize = self.color_type.num_channels() as usize;
        let bpc: usize = (self.bit_depth / 8) as usize;
        assert(ch * bpc <= 124) by (nonlinear_arith)
            requires
                ch <= 4,
                bpc <= 31,
        ;
        ch * bpc
    }
}

/// One per-row filter tag, decoded from the first byte of each
/// reconstructed record.
#[derive(Clone, Copy, Debug, PartialEq, Eq, Structural)]
pub enum Filter {
    NoFilter,
    Sub,
    Up,
    Average,
    Paeth,
}

impl Filter {
    /// The filter a row tag denotes, if the tag is in range 0 to 4.
    pub open spec fn spec_from_code(code: u8) -> Option<Filter> {
        if code == 0 {
            Some(Filter::NoFilter)
        } else if code == 1 {
            Some(Filter::Sub)
        } else if code == 2 {
            Some(Filter::Up)
        } else if code == 3 {
            Some(Filter::Average)
        } else if code == 4 {
            Some(Filter::Paeth)
        } else {
            None
        }
    }

    /// Decodes a row's filter tag; a tag outside 0 to 4 is an
    /// invalid-filter-type error.
    pub fn from_code(code: u8) -> (r: Result<Filter, DecodeError>)
        ensures
            (match Self::spec_from_code(code) {
                Some(f) => r == Ok::<Filter, DecodeError>(f),
                None => r == Err::<Filter, DecodeError>(DecodeError::InvalidFilterType),
            }),
    {
        match code {
            0 => Ok(Filter::NoFilter),
            1 => Ok(Filter::Sub),
            2 => Ok(Filter::Up),
            3 => Ok(Filter::Average),
            4 => Ok(Filter::Paeth),
            _ => Err(DecodeError::InvalidFilterType),
        }
    }
}

/// One record of the chunk sequence, as the parser hands it on. Image-data
/// payloads are owned copies of the fragment bytes; unrecognized chunks
/// keep only their type tag, their payload is skipped.
pub enum Chunk {
    ImageHeader(ImageHeader),
    ImageData(Vec<u8>),
    Other(u32),
}

/// The mathematical value of a [`Chunk`]: the same shape, with the payload
/// as a byte sequence.
pub enum ChunkModel {
    ImageHeader(ImageHeader),
    ImageData(Seq<u8>),
    Other(u32),
}

impl View for Chunk {
    type V = ChunkModel;

    open spec fn view(&self) -> ChunkModel {
        match self {
            Chunk::ImageHeader(h) => ChunkModel::ImageHeader(*h),
            Chunk::ImageData(d) => ChunkModel::ImageData(d@),
            Chunk::Other(tag) => ChunkModel::Other(*tag),
        }
    }
}

impl DeepView for Chunk {
    type V = ChunkModel;

    open spec fn deep_view(&self) -> ChunkModel {
        self@
    }
}

/// The decoded image: its dimensions, color model, and the raw unfiltered
/// sample bytes in row-major, channel-interleaved order.
#[derive(Debug, PartialEq, Eq)]
pub struct Png {
    pub width: u32,
    pub height: u32,
    pub color_type: ColorType,
    pub image_data: Vec<u8>,
}

/// The mathematical value of a [`Png`].
pub struct PngModel {
    pub width: u32,
    pub height: u32,
    pub color_type: ColorType,
    pub image_data: Seq<u8>,
}

impl View for Png {
    type V = PngModel;

    open spec fn view(&self) -> PngModel {
        PngModel {
            width: self.width,
            height: self.height,
            color_type: self.color_type,
            image_data: self.image_data@,
        }
    }
}

impl Png {
    /// The image's width and height, in pixels.
    pub fn dimension(&self) -> (d: (u32, u32))
        ensures
            d == (self.width, self.height),
    {
        (self.width, self.height)
    }
}

} // verus!

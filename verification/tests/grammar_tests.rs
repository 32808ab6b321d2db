use png::error::DecodeError;
use png::grammar::{ColorType, Filter, ImageHeader, Png};

#[test]
fn test_color_type_codes() {
    assert_eq!(ColorType::from_code(0), Ok(ColorType::Grayscale));
    assert_eq!(ColorType::from_code(2), Ok(ColorType::Rgb));
    assert_eq!(ColorType::from_code(3), Ok(ColorType::Palette));
    assert_eq!(ColorType::from_code(4), Ok(ColorType::GrayscaleAlpha));
    assert_eq!(ColorType::from_code(6), Ok(ColorType::Rgba));
    assert_eq!(
        ColorType::from_code(1),
        Err(DecodeError::UnsupportedColorType)
    );
    assert_eq!(
        ColorType::from_code(7),
        Err(DecodeError::UnsupportedColorType)
    );
}

#[test]
fn test_channel_counts() {
    assert_eq!(ColorType::Grayscale.num_channels(), 1);
    assert_eq!(ColorType::Rgb.num_channels(), 3);
    assert_eq!(ColorType::Palette.num_channels(), 1);
    assert_eq!(ColorType::GrayscaleAlpha.num_channels(), 2);
    assert_eq!(ColorType::Rgba.num_channels(), 4);
}

#[test]
fn test_filter_codes() {
    assert_eq!(Filter::from_code(0), Ok(Filter::NoFilter));
    assert_eq!(Filter::from_code(1), Ok(Filter::Sub));
    assert_eq!(Filter::from_code(2), Ok(Filter::Up));
    assert_eq!(Filter::from_code(3), Ok(Filter::Average));
    assert_eq!(Filter::from_code(4), Ok(Filter::Paeth));
    assert_eq!(Filter::from_code(5), Err(DecodeError::InvalidFilterType));
}

#[test]
fn test_bytes_per_pixel() {
    let header = ImageHeader {
        width: 10,
        height: 10,
        bit_depth: 16,
        color_type: ColorType::Rgba,
        compression_method: 0,
        filter_method: 0,
        interlace_method: false,
    };
    assert_eq!(header.num_bytes_per_pixel(), 8);
    let header8 = ImageHeader { bit_depth: 8, color_type: ColorType::Grayscale, ..header };
    assert_eq!(header8.num_bytes_per_pixel(), 1);
}

#[test]
fn test_png_dimension() {
    let png = Png {
        width: 3,
        height: 2,
        color_type: ColorType::Rgb,
        image_data: vec![0; 18],
    };
    assert_eq!(png.dimension(), (3, 2));
}

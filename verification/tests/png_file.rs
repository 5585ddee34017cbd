use grleconvert::error::ConvertError;
use grleconvert::png_file::{decode_png, encode_png, ColorType, SAMPLE_BITS};

fn png_crate_file(color: png::ColorType, depth: png::BitDepth, side: u32, samples: &[u8]) -> Vec<u8> {
    let mut file = Vec::new();
    let mut encoder = png::Encoder::new(&mut file, side, side);
    encoder.set_color(color);
    encoder.set_depth(depth);
    encoder.set_compression(png::Compression::Default);
    let mut writer = encoder.write_header().unwrap();
    writer.write_image_data(samples).unwrap();
    drop(writer);
    file
}

#[test]
fn grayscale_file_gives_back_its_pixels() {
    let pixels: Vec<u8> = (0..=255).collect();
    let file = encode_png(32, 8, ColorType::Grayscale, &pixels).unwrap();
    assert_ne!(file, pixels);
    assert_eq!(file[..8], [137, 80, 78, 71, 13, 10, 26, 10]);
    assert_eq!(file[16..24], [0, 0, 0, 32, 0, 0, 0, 8]);
    assert_eq!(file[24..26], [SAMPLE_BITS, 0]);
    let image = decode_png(&file).unwrap();
    assert_eq!((image.width, image.height), (32, 8));
    assert_eq!(image.color_type, ColorType::Grayscale);
    assert_eq!(image.pixels, pixels);
}

#[test]
fn rgb_file_gives_back_its_pixels() {
    let pixels: Vec<u8> = (0..48).map(|i| (i * 5) as u8).collect();
    let file = encode_png(4, 4, ColorType::Rgb, &pixels).unwrap();
    assert_eq!(file[24..26], [8, 2]);
    let image = decode_png(&file).unwrap();
    assert_eq!((image.width, image.height), (4, 4));
    assert_eq!(image.color_type, ColorType::Rgb);
    assert_eq!(image.pixels, pixels);
}

#[test]
fn every_color_type_is_told_apart() {
    let kinds = [
        (png::ColorType::Grayscale, ColorType::Grayscale, 1usize),
        (png::ColorType::Rgb, ColorType::Rgb, 3),
        (png::ColorType::GrayscaleAlpha, ColorType::GrayscaleAlpha, 2),
        (png::ColorType::Rgba, ColorType::Rgba, 4),
    ];
    for (outside, inside, samples) in kinds {
        let bytes: Vec<u8> = (0..4 * samples).map(|i| i as u8).collect();
        let image = decode_png(&png_crate_file(outside, png::BitDepth::Eight, 2, &bytes)).unwrap();
        assert_eq!(image.color_type, inside);
        assert_eq!(image.pixels, bytes);
    }
}

#[test]
fn color_codes_are_those_of_the_header() {
    assert_eq!(ColorType::Grayscale.code(), 0);
    assert_eq!(ColorType::Rgb.code(), 2);
    assert_eq!(ColorType::Indexed.code(), 3);
    assert_eq!(ColorType::GrayscaleAlpha.code(), 4);
    assert_eq!(ColorType::Rgba.code(), 6);
}

#[test]
fn written_file_is_the_one_of_the_png_crate() {
    let pixels = vec![17u8; 64];
    let expected = png_crate_file(png::ColorType::Grayscale, png::BitDepth::Eight, 8, &pixels);
    assert_eq!(encode_png(8, 8, ColorType::Grayscale, &pixels).unwrap(), expected);
}

#[test]
fn image_without_pixels_is_refused() {
    assert!(matches!(
        encode_png(0, 4, ColorType::Grayscale, &[]),
        Err(ConvertError::PngEncoding(_))
    ));
    assert!(matches!(
        encode_png(4, 0, ColorType::Rgb, &[]),
        Err(ConvertError::PngEncoding(_))
    ));
}

#[test]
fn other_bytes_are_refused() {
    assert!(matches!(decode_png(&[]), Err(ConvertError::PngDecoding(_))));
    assert!(matches!(decode_png(b"not a png file"), Err(ConvertError::PngDecoding(_))));
    let file = encode_png(8, 8, ColorType::Grayscale, &[3; 64]).unwrap();
    assert!(matches!(decode_png(&file[..40]), Err(ConvertError::PngDecoding(_))));
}

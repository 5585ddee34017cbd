use grleconvert::convert::{convert_gdm_to_png, convert_png_to_gdm};
use grleconvert::error::ConvertError;
use grleconvert::gdm_decode::{decode_gdm, is_gdm_decodable, read_gdm_header};
use grleconvert::gdm_encode::{encode_gdm, is_gdm_encodable};
use grleconvert::layer::{LayerParams, LayerType};
use grleconvert::png_file::{decode_png, encode_png, ColorType, PngImage};

fn layer(num_channels: usize, compression_channels: Option<usize>) -> LayerParams {
    LayerParams {
        layer_type: LayerType::GdmLayer,
        num_channels,
        compression_channels,
        type_index_channels: 0,
    }
}

fn gray(side: u32, pixels: Vec<u8>) -> PngImage {
    PngImage { width: side, height: side, color_type: ColorType::Grayscale, pixels }
}

#[test]
fn header_and_uniform_block_are_written() {
    let file = encode_gdm(&gray(32, vec![5; 1024]), &layer(4, None)).unwrap();
    assert_eq!(
        file,
        vec![0x22, b'M', b'D', b'F', 0, 0, 0, 0, 0, 5, 2, 4, 1, 0, 0, 0, 0, 1, 5, 0]
    );
}

#[test]
fn two_ranges_split_the_bits() {
    let mut params = layer(6, Some(2));
    params.type_index_channels = 7;
    let file = encode_gdm(&gray(32, vec![0b110110; 1024]), &params).unwrap();
    assert_eq!(
        file,
        vec![
            0x22, b'M', b'D', b'F', 0, 0, 0, 0, 0, 5, 2, 6, 2, 7, 0, 0, 2, 0, 1, 2, 0, 0, 1, 13, 0
        ]
    );
    let image = decode_gdm(&file).unwrap();
    assert_eq!((image.side, image.rgb, image.consumed), (32, false, 25));
    assert_eq!(image.pixels, vec![0b110110; 1024]);
}

#[test]
fn bits_above_the_channels_are_cut() {
    let file = encode_gdm(&gray(32, vec![0xff; 1024]), &layer(3, None)).unwrap();
    assert_eq!(decode_gdm(&file).unwrap().pixels, vec![7; 1024]);
}

#[test]
fn chunks_follow_row_by_row() {
    let side = 64usize;
    let pixels: Vec<u8> = (0..side * side)
        .map(|i| (i / side / 32 * 2 + i % side / 32) as u8)
        .collect();
    let file = encode_gdm(&gray(64, pixels.clone()), &layer(2, None)).unwrap();
    assert_eq!(file[8], 1);
    assert_eq!(file[16..], [0, 1, 0, 0, 0, 1, 1, 0, 0, 1, 2, 0, 0, 1, 3, 0]);
    let image = decode_gdm(&file).unwrap();
    assert_eq!(image.side, 64);
    assert_eq!(image.pixels, pixels);
}

#[test]
fn rgb_holds_values_of_more_than_eight_channels() {
    let mut pixels = Vec::new();
    for i in 0..64 * 64usize {
        pixels.extend([(i % 251) as u8, (i % 3) as u8, 0]);
    }
    let image = PngImage { width: 64, height: 64, color_type: ColorType::Rgb, pixels: pixels.clone() };
    let file = encode_gdm(&image, &layer(10, Some(5))).unwrap();
    let back = decode_gdm(&file).unwrap();
    assert!(back.rgb);
    assert_eq!(back.consumed, file.len());
    assert_eq!(back.pixels, pixels);
}

#[test]
fn alpha_is_ignored() {
    let mut rgb = Vec::new();
    let mut rgba = Vec::new();
    for i in 0..1024usize {
        rgb.extend([(i % 13) as u8, (i % 4) as u8, 0]);
        rgba.extend([(i % 13) as u8, (i % 4) as u8, 0, i as u8]);
    }
    let rgb = PngImage { width: 32, height: 32, color_type: ColorType::Rgb, pixels: rgb };
    let rgba = PngImage { width: 32, height: 32, color_type: ColorType::Rgba, pixels: rgba };
    let params = layer(12, Some(4));
    assert_eq!(encode_gdm(&rgb, &params).unwrap(), encode_gdm(&rgba, &params).unwrap());
}

#[test]
fn older_header_is_read() {
    let mut file = b"!MDF".to_vec();
    file.extend([0, 5, 2, 4, 1]);
    file.extend([0, 1, 9, 0]);
    assert!(matches!(decode_gdm(&file), Err(ConvertError::TooSmall)));
    file.extend([0, 0, 0]);
    assert!(is_gdm_decodable(&file));
    let header = read_gdm_header(&file).unwrap();
    assert_eq!((header.side_log2, header.chunk_log2, header.num_channels), (0, 5, 4));
    assert_eq!(header.num_compression_ranges, 1);
    let image = decode_gdm(&file).unwrap();
    assert_eq!((image.side, image.rgb, image.consumed), (32, false, 13));
    assert_eq!(image.pixels, vec![9; 1024]);
}

#[test]
fn mapping_records_are_skipped() {
    let mut file = vec![0x22, b'M', b'D', b'F', 0, 0, 0, 0, 0, 5, 2, 4, 1, 7, 2, 0];
    file.extend([9u8; 6]);
    file.extend([0, 1, 3, 0]);
    assert_eq!(decode_gdm(&file).unwrap().pixels, vec![3; 1024]);
}

#[test]
fn smaller_chunks_are_read() {
    let mut file = vec![0x22, b'M', b'D', b'F', 0, 0, 0, 0, 0, 4, 2, 4, 1, 0, 0, 0];
    for v in 0..4u8 {
        file.extend([0, 1, v, 0]);
    }
    let image = decode_gdm(&file).unwrap();
    assert_eq!(image.side, 32);
    assert_eq!(image.pixels[0], 0);
    assert_eq!(image.pixels[16], 1);
    assert_eq!(image.pixels[16 * 32], 2);
    assert_eq!(image.pixels[1023], 3);
}

#[test]
fn short_gdm_files_are_refused() {
    assert!(is_gdm_decodable(b"\"MDF"));
    assert!(matches!(decode_gdm(b"\"MDF"), Err(ConvertError::TooSmall)));
    assert!(matches!(decode_gdm(&[]), Err(ConvertError::TooSmall)));
}

#[test]
fn other_files_are_refused_for_gdm() {
    assert!(matches!(decode_gdm(&[0; 16]), Err(ConvertError::NotGdm)));
    assert!(matches!(convert_gdm_to_png(b"?MDF0123456789abcdef"), Err(ConvertError::NotGdm)));
}

#[test]
fn other_versions_are_refused() {
    let file = [0x22, b'M', b'D', b'F', 3, 0, 0, 0, 0, 5, 2, 4, 1, 0, 0, 0];
    assert!(matches!(decode_gdm(&file), Err(ConvertError::UnsupportedVersion(3))));
}

#[test]
fn missing_blocks_are_refused() {
    let mut file = encode_gdm(&gray(64, vec![5; 4096]), &layer(4, None)).unwrap();
    file.truncate(28);
    assert!(is_gdm_decodable(&file));
    assert!(matches!(decode_gdm(&file), Err(ConvertError::UnexpectedEnd)));
    assert!(matches!(convert_gdm_to_png(&file), Err(ConvertError::UnexpectedEnd)));
}

#[test]
fn cut_blocks_are_told() {
    let mut file = encode_gdm(&gray(32, vec![5; 1024]), &layer(4, None)).unwrap();
    file.truncate(19);
    assert!(!is_gdm_decodable(&file));
    let wide = [0x22, b'M', b'D', b'F', 0, 0, 0, 0, 200, 5, 2, 4, 1, 0, 0, 0];
    assert!(!is_gdm_decodable(&wide));
}

#[test]
fn shapes_that_no_gdm_file_has_are_refused() {
    let params = layer(4, None);
    let wide = PngImage { width: 64, height: 32, color_type: ColorType::Grayscale, pixels: vec![0; 2048] };
    assert!(matches!(encode_gdm(&wide, &params), Err(ConvertError::NotSquare)));
    for side in [16u32, 33, 48, 96] {
        let image = gray(side, vec![0; (side * side) as usize]);
        match encode_gdm(&image, &params) {
            Err(ConvertError::NotPowerOfTwo(told)) => assert_eq!(told, side as usize),
            other => panic!("{:?}", other),
        }
    }
}

#[test]
fn gray_with_alpha_is_refused_for_gdm() {
    let image = PngImage {
        width: 32,
        height: 32,
        color_type: ColorType::GrayscaleAlpha,
        pixels: vec![0; 2048],
    };
    assert!(matches!(encode_gdm(&image, &layer(4, None)), Err(ConvertError::UnsupportedColorType)));
}

#[test]
fn layers_that_cannot_be_stored_are_told() {
    let image = gray(32, vec![0; 1024]);
    assert!(is_gdm_encodable(&image, &layer(4, Some(4))));
    assert!(!is_gdm_encodable(&image, &layer(4, Some(5))));
    assert!(!is_gdm_encodable(&image, &layer(32, None)));
    assert!(!is_gdm_encodable(&gray(32, vec![0; 1023]), &layer(4, None)));
}

#[test]
fn gdm_file_becomes_a_png() {
    let pixels: Vec<u8> = (0..1024).map(|i| (i % 16) as u8).collect();
    let file = encode_gdm(&gray(32, pixels.clone()), &layer(4, None)).unwrap();
    let (png, consumed) = convert_gdm_to_png(&file).unwrap();
    assert_eq!(consumed, file.len());
    assert_eq!((png.width, png.height), (32, 32));
    let image = decode_png(&png.file).unwrap();
    assert_eq!((image.width, image.height), (32, 32));
    assert_eq!(image.color_type, ColorType::Grayscale);
    assert_eq!(image.pixels, pixels);
}

#[test]
fn gdm_file_survives_png() {
    let mut pixels = Vec::new();
    for i in 0..64 * 64usize {
        pixels.extend([(i / 9) as u8, (i / 700) as u8, 0]);
    }
    let image = PngImage { width: 64, height: 64, color_type: ColorType::Rgb, pixels };
    let params = layer(11, Some(7));
    let file = encode_gdm(&image, &params).unwrap();
    let (png, _) = convert_gdm_to_png(&file).unwrap();
    assert_eq!(decode_png(&png.file).unwrap().color_type, ColorType::Rgb);
    let back = convert_png_to_gdm(&png.file, &params).unwrap();
    assert_eq!((back.width, back.height), (64, 64));
    assert_eq!(back.file, file);
}

#[test]
fn png_to_gdm_reports_its_errors() {
    let params = layer(4, None);
    assert!(matches!(convert_png_to_gdm(b"png", &params), Err(ConvertError::PngDecoding(_))));
    let small = encode_png(8, 8, ColorType::Grayscale, &[0; 64]).unwrap();
    assert!(matches!(convert_png_to_gdm(&small, &params), Err(ConvertError::NotPowerOfTwo(8))));
    let wide = encode_png(64, 32, ColorType::Grayscale, &[0; 2048]).unwrap();
    assert!(matches!(convert_png_to_gdm(&wide, &params), Err(ConvertError::NotSquare)));
    let good = encode_png(32, 32, ColorType::Grayscale, &[0; 1024]).unwrap();
    assert!(matches!(
        convert_png_to_gdm(&good, &layer(4, Some(9))),
        Err(ConvertError::Undefined)
    ));
}

#[test]
fn converted_back_file_shows_the_same_pixels() {
    let mut file = vec![0x22, b'M', b'D', b'F', 0, 0, 0, 0, 0, 4, 2, 3, 1, 0, 0, 0];
    for v in [1u8, 9, 4, 6] {
        file.extend([0, 1, v, 0]);
    }
    let (png, _) = convert_gdm_to_png(&file).unwrap();
    let again = convert_png_to_gdm(&png.file, &layer(3, None)).unwrap().file;
    assert_ne!(again, file);
    let expected: Vec<u8> =
        decode_gdm(&file).unwrap().pixels.iter().map(|v| v % 8).collect();
    let image = decode_gdm(&again).unwrap();
    assert_eq!((image.side, image.consumed), (32, again.len()));
    assert_eq!(image.pixels, expected);
    assert_eq!(image.pixels[16], 1);
}

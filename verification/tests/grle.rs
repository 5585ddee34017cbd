use grleconvert::convert::{convert_grle_to_png, convert_png_to_grle};
use grleconvert::error::ConvertError;
use grleconvert::grle::{
    decode_grle, encode_grle, is_grle_decodable, is_grle_encodable,
};
use grleconvert::png_file::{decode_png, encode_png, ColorType, PngImage};

const SIZE: usize = 256 * 256;

fn gray_image(width: u32, height: u32, pixels: Vec<u8>) -> PngImage {
    PngImage { width, height, color_type: ColorType::Grayscale, pixels }
}

fn grle_file(width: u16, height: u16, compressed: &[u8]) -> Vec<u8> {
    let mut file = b"GRLE".to_vec();
    file.extend([1, 0]);
    file.extend(width.to_le_bytes());
    file.extend([0, 0]);
    file.extend(height.to_le_bytes());
    file.extend([0, 1, 0, 0, 0]);
    file.extend(&(compressed.len() as u32).wrapping_sub(1).to_le_bytes()[..3]);
    file.extend(compressed);
    file
}

#[test]
fn uniform_image_is_one_run() {
    let image = gray_image(256, 512, vec![5; 2 * SIZE]);
    assert!(is_grle_encodable(&image));
    let file = encode_grle(&image).unwrap();
    let mut compressed = vec![0u8, 5, 5];
    compressed.extend(vec![255u8; 514]);
    compressed.push(0);
    assert_eq!(2 * SIZE - 2, 514 * 255);
    assert_eq!(file, grle_file(1, 2, &compressed));
    assert_eq!(file[12..20], [0, 1, 0, 0, 0, 5, 2, 0]);
}

#[test]
fn written_image_is_read_back() {
    let mut pixels: Vec<u8> = (0..SIZE).map(|i| (i / 300 % 7) as u8).collect();
    pixels[SIZE - 2] = 1;
    pixels[SIZE - 1] = 1;
    let file = encode_grle(&gray_image(256, 256, pixels.clone())).unwrap();
    assert!(is_grle_decodable(&file));
    let image = decode_grle(&file).unwrap();
    assert_eq!((image.version, image.width, image.height), (1, 256, 256));
    assert_eq!(image.pixels, pixels);
    assert_eq!(encode_grle(&gray_image(256, 256, image.pixels)).unwrap(), file);
}

#[test]
fn last_pixel_of_an_image_alone_is_lost() {
    let mut pixels = vec![2u8; SIZE];
    pixels[SIZE - 1] = 9;
    let file = encode_grle(&gray_image(256, 256, pixels.clone())).unwrap();
    pixels[SIZE - 1] = 0;
    assert_eq!(decode_grle(&file).unwrap().pixels, pixels);
}

#[test]
fn colors_give_their_first_sample() {
    let gray: Vec<u8> = (0..SIZE).map(|i| (i / 512) as u8).collect();
    let expected = encode_grle(&gray_image(256, 256, gray.clone())).unwrap();
    let mut rgb = Vec::new();
    let mut rgba = Vec::new();
    for g in &gray {
        rgb.extend([*g, 100, 200]);
        rgba.extend([*g, 100, 200, 255]);
    }
    let rgb = PngImage { width: 256, height: 256, color_type: ColorType::Rgb, pixels: rgb };
    let rgba = PngImage { width: 256, height: 256, color_type: ColorType::Rgba, pixels: rgba };
    assert_eq!(encode_grle(&rgb).unwrap(), expected);
    assert_eq!(encode_grle(&rgba).unwrap(), expected);
}

#[test]
fn sides_that_do_not_fit_are_refused() {
    let image = gray_image(300, 256, vec![0; 300 * 256]);
    assert!(matches!(
        encode_grle(&image),
        Err(ConvertError::NotMultipleOf256 { width: 300, height: 256 })
    ));
    let image = gray_image(256, 10, vec![0; 2560]);
    assert!(matches!(
        encode_grle(&image),
        Err(ConvertError::NotMultipleOf256 { width: 256, height: 10 })
    ));
}

#[test]
fn gray_with_alpha_is_refused_for_grle() {
    let image = PngImage {
        width: 256,
        height: 256,
        color_type: ColorType::GrayscaleAlpha,
        pixels: vec![0; 2 * SIZE],
    };
    assert!(matches!(encode_grle(&image), Err(ConvertError::UnsupportedColorType)));
}

#[test]
fn missing_gray_pixels_are_told() {
    assert!(!is_grle_encodable(&gray_image(256, 256, vec![0; SIZE - 1])));
    assert!(is_grle_encodable(&gray_image(256, 255, Vec::new())));
}

#[test]
fn other_letters_are_refused() {
    assert!(is_grle_decodable(b"GRLX"));
    assert!(matches!(decode_grle(b"GRLX"), Err(ConvertError::NotGrle)));
    assert!(matches!(convert_grle_to_png(b"GRLX"), Err(ConvertError::NotGrle)));
}

#[test]
fn short_grle_files_are_told() {
    assert!(!is_grle_decodable(b"GRL"));
    assert!(!is_grle_decodable(b"GRLE"));
    assert!(!is_grle_decodable(&grle_file(1, 1, &[])[..19]));
    assert!(is_grle_decodable(&grle_file(1, 1, &[])));
}

#[test]
fn grle_file_becomes_a_grayscale_png() {
    let file = grle_file(1, 2, &[0, 3, 4, 4, 10]);
    let png = convert_grle_to_png(&file).unwrap();
    assert_eq!((png.width, png.height), (256, 512));
    let image = decode_png(&png.file).unwrap();
    assert_eq!((image.width, image.height), (256, 512));
    assert_eq!(image.color_type, ColorType::Grayscale);
    let mut expected = vec![3u8];
    expected.extend(vec![4u8; 12]);
    expected.resize(2 * SIZE, 0);
    assert_eq!(image.pixels, expected);
}

#[test]
fn grle_file_without_pixels_is_refused() {
    assert!(matches!(
        convert_grle_to_png(&grle_file(0, 1, &[0])),
        Err(ConvertError::PngEncoding(_))
    ));
}

#[test]
fn grle_file_survives_png() {
    let pixels: Vec<u8> = (0..SIZE).map(|i| (i / 1000) as u8).collect();
    let file = encode_grle(&gray_image(256, 256, pixels)).unwrap();
    let png = convert_grle_to_png(&file).unwrap();
    let back = convert_png_to_grle(&png.file).unwrap();
    assert_eq!((back.width, back.height), (256, 256));
    assert_eq!(back.file, file);
}

#[test]
fn png_to_grle_reports_its_errors() {
    assert!(matches!(convert_png_to_grle(b"png"), Err(ConvertError::PngDecoding(_))));
    let small = encode_png(8, 8, ColorType::Grayscale, &[0; 64]).unwrap();
    assert!(matches!(
        convert_png_to_grle(&small),
        Err(ConvertError::NotMultipleOf256 { width: 8, height: 8 })
    ));
}

#[test]
fn png_of_single_bits_lacks_gray_pixels() {
    let mut file = Vec::new();
    let mut encoder = png::Encoder::new(&mut file, 256, 256);
    encoder.set_color(png::ColorType::Grayscale);
    encoder.set_depth(png::BitDepth::One);
    let mut writer = encoder.write_header().unwrap();
    writer.write_image_data(&[0x55; SIZE / 8]).unwrap();
    drop(writer);
    assert!(matches!(convert_png_to_grle(&file), Err(ConvertError::Undefined)));
}

#[test]
fn converted_back_file_shows_the_same_image() {
    let file = grle_file(1, 1, &[0, 3, 3, 0, 3, 3, 0, 7, 8, 8, 4]);
    let png = convert_grle_to_png(&file).unwrap();
    let again = convert_png_to_grle(&png.file).unwrap().file;
    assert_ne!(again, file);
    assert_eq!(again[20..28], [0, 3, 3, 2, 7, 8, 8, 4]);
    assert_eq!(decode_grle(&again).unwrap().pixels, decode_grle(&file).unwrap().pixels);
}

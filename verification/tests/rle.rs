use grleconvert::bytes::{push_u16_le, read_u16_le, read_u32_le};
use grleconvert::rle::{decode_grle_rle, encode_grle_rle};

#[test]
fn little_endian_numbers_are_read_at_an_offset() {
    let data = [9u8, 0x34, 0x12, 0x78, 0x56];
    assert_eq!(read_u16_le(&data, 1), 0x1234);
    assert_eq!(read_u16_le(&data, 3), 0x5678);
    assert_eq!(read_u32_le(&data, 1), 0x56781234);
}

#[test]
fn written_number_is_read_back() {
    let mut out = vec![7u8];
    push_u16_le(&mut out, 0xbeef);
    assert_eq!(out, vec![7, 0xef, 0xbe]);
    assert_eq!(read_u16_le(&out, 1), 0xbeef);
}

#[test]
fn no_pixels_give_the_first_byte_alone() {
    assert_eq!(encode_grle_rle(&[]), vec![0]);
}

#[test]
fn one_pixel_is_padded_to_a_run() {
    assert_eq!(encode_grle_rle(&[7]), vec![0, 7, 7, 0]);
    assert_eq!(decode_grle_rle(&[0, 7, 7, 0], 1), vec![7]);
}

#[test]
fn runs_hold_the_value_twice_and_a_count() {
    assert_eq!(encode_grle_rle(&[1, 1, 1, 2, 2]), vec![0, 1, 1, 1, 2, 2, 0]);
    assert_eq!(decode_grle_rle(&[0, 1, 1, 1, 2, 2, 0], 5), vec![1, 1, 1, 2, 2]);
}

#[test]
fn single_pixels_stand_before_a_run() {
    assert_eq!(encode_grle_rle(&[5, 4, 6, 6]), vec![0, 5, 4, 6, 6, 0]);
    assert_eq!(decode_grle_rle(&[0, 5, 4, 6, 6, 0], 4), vec![5, 4, 6, 6]);
}

#[test]
fn long_counts_go_on_in_further_bytes() {
    assert_eq!(encode_grle_rle(&[9; 256]), vec![0, 9, 9, 254]);
    assert_eq!(encode_grle_rle(&[9; 257]), vec![0, 9, 9, 255, 0]);
    assert_eq!(encode_grle_rle(&[9; 300]), vec![0, 9, 9, 255, 43]);
    assert_eq!(encode_grle_rle(&[9; 513]), vec![0, 9, 9, 255, 255, 1]);
    assert_eq!(decode_grle_rle(&[0, 9, 9, 255, 255, 1], 513), vec![9; 513]);
}

#[test]
fn last_pixel_alone_is_lost() {
    assert_eq!(encode_grle_rle(&[1, 2]), vec![0, 1, 2]);
    assert_eq!(decode_grle_rle(&[0, 1, 2], 2), vec![1, 0]);
    assert_eq!(decode_grle_rle(&encode_grle_rle(&[3, 3, 8]), 3), vec![3, 3, 0]);
}

#[test]
fn last_pixel_alone_survives_where_it_is_zero() {
    let pixels = [4u8, 4, 5, 0];
    assert_eq!(decode_grle_rle(&encode_grle_rle(&pixels), 4), pixels.to_vec());
}

#[test]
fn decoded_pixels_are_cut_and_filled_to_size() {
    assert_eq!(decode_grle_rle(&[], 3), vec![0, 0, 0]);
    assert_eq!(decode_grle_rle(&[0, 4, 4, 200], 3), vec![4, 4, 4]);
    assert_eq!(decode_grle_rle(&[0, 4, 4], 5), vec![4, 4, 0, 0, 0]);
    assert_eq!(decode_grle_rle(&[0, 4, 4, 255], 4), vec![4, 4, 4, 4]);
    assert_eq!(decode_grle_rle(&[0, 4, 4, 9], 0), Vec::<u8>::new());
}

#[test]
fn pixels_that_end_in_a_run_come_back() {
    let mut pixels: Vec<u8> = Vec::new();
    for i in 0..2000usize {
        pixels.push((i * i / 97 % 11) as u8);
    }
    pixels.push(3);
    pixels.push(3);
    assert_eq!(decode_grle_rle(&encode_grle_rle(&pixels), pixels.len()), pixels);
}

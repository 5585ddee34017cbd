use grleconvert::gdm_block::{decode_gdm_block, encode_gdm_block};

fn chunk(value: fn(usize) -> u16) -> Vec<u16> {
    (0..1024).map(value).collect()
}

#[test]
fn uniform_chunk_is_a_palette_of_one() {
    let pixels = chunk(|_| 0x0105);
    let block = encode_gdm_block(&pixels, 32, 4);
    assert_eq!(block, vec![0, 1, 0x05, 0x01]);
    assert_eq!(decode_gdm_block(&block, 0, 32), (pixels, 4));
}

#[test]
fn two_values_take_one_bit() {
    let pixels = chunk(|i| if i % 2 == 0 { 9 } else { 3 });
    let block = encode_gdm_block(&pixels, 32, 4);
    let mut expected = vec![1u8, 2, 3, 0, 9, 0];
    expected.extend(vec![0x55u8; 128]);
    assert_eq!(block, expected);
    assert_eq!(decode_gdm_block(&block, 0, 32), (pixels, 134));
}

#[test]
fn three_and_four_values_take_two_bits() {
    let four = chunk(|i| (i % 4) as u16);
    let block = encode_gdm_block(&four, 32, 8);
    let mut expected = vec![2u8, 4, 0, 0, 1, 0, 2, 0, 3, 0];
    expected.extend(vec![0xe4u8; 256]);
    assert_eq!(block, expected);
    assert_eq!(decode_gdm_block(&block, 0, 32), (four, 266));

    let three = chunk(|i| [500u16, 7, 7, 9][i % 4]);
    let block = encode_gdm_block(&three, 32, 12);
    assert_eq!(block[..8], [2, 3, 7, 0, 9, 0, 0xf4, 0x01]);
    assert_eq!(block[8], 0b01_00_00_10);
    assert_eq!(decode_gdm_block(&block, 0, 32), (three, 264));
}

#[test]
fn more_values_are_stored_in_the_width_of_the_range() {
    let pixels = chunk(|i| (i % 8) as u16);
    let block = encode_gdm_block(&pixels, 32, 3);
    assert_eq!(block.len(), 2 + 3 * 128);
    assert_eq!(block[..5], [3, 0, 0x88, 0xc6, 0xfa]);
    assert_eq!(decode_gdm_block(&block, 0, 32), (pixels.clone(), 386));

    let wide = encode_gdm_block(&pixels, 32, 8);
    assert_eq!(wide[..6], [8, 0, 0, 1, 2, 3]);
    assert_eq!(decode_gdm_block(&wide, 0, 32), (pixels, 1026));
}

#[test]
fn values_too_large_for_the_range_widen_it() {
    let pixels = chunk(|i| (i % 200) as u16);
    let block = encode_gdm_block(&pixels, 32, 3);
    assert_eq!(block[..2], [8, 0]);
    assert_eq!(decode_gdm_block(&block, 0, 32), (pixels, 1026));
}

#[test]
fn block_is_read_at_its_position() {
    let pixels = chunk(|i| (i / 64 % 16) as u16);
    let mut data = vec![0xffu8; 11];
    data.extend(encode_gdm_block(&pixels, 32, 4));
    data.push(0xff);
    assert_eq!(decode_gdm_block(&data, 11, 32), (pixels, 514));
}

#[test]
fn field_beyond_two_bytes_loses_its_high_bits() {
    let mut pixels = chunk(|i| (i % 6) as u16);
    pixels[5] = 0x7ff;
    let block = encode_gdm_block(&pixels, 32, 11);
    let (read, size) = decode_gdm_block(&block, 0, 32);
    assert_eq!(size, 2 + 11 * 128);
    assert_eq!(read[5], 0x1ff);
    pixels[5] = 0x1ff;
    assert_eq!(read, pixels);
}

#[test]
fn ten_and_twelve_bit_values_come_back() {
    let ten = chunk(|i| (i * 37 % 1024) as u16);
    assert_eq!(decode_gdm_block(&encode_gdm_block(&ten, 32, 10), 0, 32).0, ten);
    let twelve = chunk(|i| (i * 2731 % 4096) as u16);
    assert_eq!(decode_gdm_block(&encode_gdm_block(&twelve, 32, 12), 0, 32).0, twelve);
}

#[test]
fn index_outside_the_palette_is_zero() {
    let mut data = vec![1u8, 1, 6, 0];
    data.extend(vec![0b0000_0001u8; 128]);
    let (read, size) = decode_gdm_block(&data, 0, 32);
    assert_eq!(size, 132);
    assert_eq!(read[..9], [0, 6, 6, 6, 6, 6, 6, 6, 0]);
}

#[test]
fn few_bits_without_a_palette_are_values() {
    let mut data = vec![2u8, 0];
    data.extend(vec![0xe4u8; 256]);
    assert_eq!(decode_gdm_block(&data, 0, 32).0[..4], [0, 1, 2, 3]);
    assert_eq!(decode_gdm_block(&[0, 0], 0, 2), (vec![0, 0, 0, 0], 2));
}
